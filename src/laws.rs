//! Properties of the histogram that hold for every dataset.
use vstd::prelude::*;
use crate::categorical::{
    bin_before, is_category_bins, is_categorical_histogram, lemma_text_lt_asymmetric, occurrences,
};
use crate::classify::{categorical, distinct_count};
use crate::compute::histogram_result;
use crate::histogram::{count_sum, Histogram, HistogramError};
use crate::numeric::{
    finite_high, finite_low, finite_part, is_finite_key, lemma_finite_bounds, lemma_finite_ends,
    lemma_sorted_span, numeric_keys, position, quartile_markers,
};

verus! {

broadcast use vstd::seq_lib::group_to_multiset_ensures;

/// Each quartile marker of a non-empty sequence of `i64` keys lies in
/// `[0, 1]`.
pub proof fn quartile_markers_in_unit_range(xs: Seq<int>)
    requires
        xs.len() > 0,
        forall|i: int| 0 <= i < xs.len() ==> i64::MIN <= #[trigger] xs[i] <= i64::MAX,
    ensures
        quartile_markers(xs).in_unit_range(),
{
    xs.lemma_sort_ensures();
    lemma_sorted_span(xs);
    let s = xs.sort();
    let n = xs.len() as int;
    let lo = finite_low(xs);
    let range = finite_high(xs) - lo;
    if finite_part(xs).len() > 0 {
        lemma_finite_ends(xs);
    }
    assert forall|i: int| 0 <= i < n implies (#[trigger] position(s, i, lo, range)).in_unit_range() by {
        if range != 0 {
            assert(finite_part(xs).len() > 0);
            lemma_finite_ends(xs);
            assert(0 < range <= u64::MAX);
            if is_finite_key(s[i]) {
                assert(s.contains(s[i]));
                assert(xs.to_multiset().count(s[i]) > 0);
                assert(xs.contains(s[i]));
                lemma_finite_bounds(xs, s[i]);
                assert(0 <= s[i] - lo <= range);
            } else {
                assert(s.contains(s[i]));
                assert(xs.to_multiset().count(s[i]) > 0);
                assert(xs.contains(s[i]));
                assert(s[i] == i64::MIN || s[i] == i64::MAX);
            }
        }
    }
    assert(3 * n / 4 < n);
}

/// Every histogram's counts add up to its total, and a categorical
/// histogram's total is the number of values.
pub proof fn counts_add_up_to_total(vals: Seq<Seq<char>>, num_bins: nat, h: Histogram)
    requires
        histogram_result(vals, num_bins, Ok(h)),
    ensures
        count_sum(h.bin_seq()) == h.total,
        categorical(vals, num_bins) ==> h.total == vals.len(),
{
}

/// The categorical histogram counts every value, blank ones included: its
/// counts add up to its total, which is the number of values.
pub proof fn categorical_counts_every_value(vals: Seq<Seq<char>>, h: Histogram)
    requires
        is_categorical_histogram(vals, h),
    ensures
        count_sum(h.bin_seq()) == h.total,
        h.total == vals.len(),
{
}

/// A numeric histogram has exactly the requested number of bins, however
/// few distinct values there are.
pub proof fn numeric_histogram_has_num_bins(vals: Seq<Seq<char>>, num_bins: nat, h: Histogram)
    requires
        !categorical(vals, num_bins),
        histogram_result(vals, num_bins, Ok(h)),
    ensures
        h.bins@.len() == num_bins,
{
}

/// The classifier decides the same way for the same values.
pub proof fn classification_is_deterministic(a: Seq<Seq<char>>, b: Seq<Seq<char>>, num_bins: nat)
    requires
        a == b,
    ensures
        categorical(a, num_bins) == categorical(b, num_bins),
{
}

/// Quartile markers, when there are any, lie in `[0, 1]`.
pub proof fn markers_in_unit_range(vals: Seq<Seq<char>>, num_bins: nat, h: Histogram)
    requires
        histogram_result(vals, num_bins, Ok(h)),
        h.markers is Some,
    ensures
        h.markers->Some_0.in_unit_range(),
{
    if !categorical(vals, num_bins) {
        quartile_markers_in_unit_range(numeric_keys(vals));
    }
}

/// A dataset with fewer distinct values than bins is shown per value.
pub proof fn few_distinct_values_are_categorical(vals: Seq<Seq<char>>, num_bins: nat)
    requires
        distinct_count(vals) < num_bins,
    ensures
        categorical(vals, num_bins),
{
}

/// Two bin sequences that are both strictly in bin order and hold the same
/// bins are equal.
proof fn lemma_ordered_bins_unique(a: Seq<(Seq<char>, usize)>, b: Seq<(Seq<char>, usize)>)
    requires
        forall|i: int, j: int| 0 <= i < j < a.len() ==> bin_before(#[trigger] a[i], #[trigger] a[j]),
        forall|i: int, j: int| 0 <= i < j < b.len() ==> bin_before(#[trigger] b[i], #[trigger] b[j]),
        forall|x: (Seq<char>, usize)| a.contains(x) <==> b.contains(x),
    ensures
        a == b,
    decreases a.len(),
{
    if a.len() == 0 {
        if b.len() > 0 {
            assert(b.contains(b[0]));
        }
        assert(a =~= b);
    } else {
        assert(a.contains(a[0]));
        assert(b.len() > 0);
        assert(b.contains(b[0]));
        let j = choose|j: int| 0 <= j < b.len() && b[j] == a[0];
        let i = choose|i: int| 0 <= i < a.len() && a[i] == b[0];
        if j > 0 {
            assert(bin_before(b[0], b[j]));
            lemma_text_lt_asymmetric(a[0].0, a[i].0);
            lemma_text_lt_asymmetric(a[0].0, a[0].0);
            if i > 0 {
                assert(bin_before(a[0], a[i]));
            }
        }
        assert(a[0] == b[0]);
        let a2 = a.drop_first();
        let b2 = b.drop_first();
        assert forall|x: (Seq<char>, usize)| a2.contains(x) implies b2.contains(x) by {
            let p = choose|p: int| 0 <= p < a2.len() && a2[p] == x;
            assert(bin_before(a[0], a[p + 1]));
            lemma_text_lt_asymmetric(x.0, x.0);
            assert(a.contains(x));
            let q = choose|q: int| 0 <= q < b.len() && b[q] == x;
            assert(q > 0);
            assert(b2[q - 1] == x);
        }
        assert forall|x: (Seq<char>, usize)| b2.contains(x) implies a2.contains(x) by {
            let p = choose|p: int| 0 <= p < b2.len() && b2[p] == x;
            assert(bin_before(b[0], b[p + 1]));
            lemma_text_lt_asymmetric(x.0, x.0);
            assert(b.contains(x));
            let q = choose|q: int| 0 <= q < a.len() && a[q] == x;
            assert(q > 0);
            assert(a2[q - 1] == x);
        }
        lemma_ordered_bins_unique(a2, b2);
        assert forall|i: int| 0 <= i < a.len() implies a[i] == b[i] by {
            if i > 0 {
                assert(a[i] == a2[i - 1]);
                assert(b[i] == b2[i - 1]);
            }
        }
        assert(a =~= b);
    }
}

/// The categories of a dataset are one sequence of bins.
pub proof fn category_bins_unique(
    vals: Seq<Seq<char>>,
    a: Seq<(Seq<char>, usize)>,
    b: Seq<(Seq<char>, usize)>,
)
    requires
        is_category_bins(vals, a),
        is_category_bins(vals, b),
    ensures
        a == b,
{
    assert forall|x: (Seq<char>, usize)| a.contains(x) implies b.contains(x) by {
        let p = choose|p: int| 0 <= p < a.len() && a[p] == x;
        assert(a[p].1 == occurrences(vals, a[p].0));
        assert(vals.contains(a[p].0));
        let q = choose|q: int| 0 <= q < b.len() && #[trigger] b[q].0 == a[p].0;
        assert(b[q] == x);
    }
    assert forall|x: (Seq<char>, usize)| b.contains(x) implies a.contains(x) by {
        let p = choose|p: int| 0 <= p < b.len() && b[p] == x;
        assert(b[p].1 == occurrences(vals, b[p].0));
        assert(vals.contains(b[p].0));
        let q = choose|q: int| 0 <= q < a.len() && #[trigger] a[q].0 == b[p].0;
        assert(a[q] == x);
    }
    lemma_ordered_bins_unique(a, b);
}

/// Computing the histogram twice from the same values gives the same bins
/// in the same order, the same markers and the same total, or the same
/// error.
pub proof fn histogram_is_deterministic(
    vals: Seq<Seq<char>>,
    num_bins: nat,
    r1: Result<Histogram, HistogramError>,
    r2: Result<Histogram, HistogramError>,
)
    requires
        histogram_result(vals, num_bins, r1),
        histogram_result(vals, num_bins, r2),
    ensures
        r1 is Ok <==> r2 is Ok,
        r1 is Ok ==> r1->Ok_0.bin_seq() == r2->Ok_0.bin_seq() && r1->Ok_0.markers
            == r2->Ok_0.markers && r1->Ok_0.total == r2->Ok_0.total,
        r1 is Err ==> r1 == r2,
{
    if categorical(vals, num_bins) {
        category_bins_unique(vals, r1->Ok_0.bin_seq(), r2->Ok_0.bin_seq());
    }
}

} // verus!
