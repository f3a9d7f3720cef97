use vstd::prelude::*;
use itertools::Itertools;
use crate::classify::texts;
use crate::histogram::{bins_view, count_sum, lemma_count_sum_permutation, Histogram};

verus! {

broadcast use vstd::seq_lib::group_to_multiset_ensures;

/// Text order: `a` comes strictly before `b`, comparing characters by code
/// point and a proper prefix before the longer text.
pub open spec fn text_lt(a: Seq<char>, b: Seq<char>) -> bool
    decreases a.len(),
{
    if a.len() == 0 {
        b.len() > 0
    } else if b.len() == 0 {
        false
    } else if a[0] != b[0] {
        (a[0] as u32) < (b[0] as u32)
    } else {
        text_lt(a.drop_first(), b.drop_first())
    }
}

/// `a` is `b` or comes before it.
pub open spec fn text_le(a: Seq<char>, b: Seq<char>) -> bool {
    a == b || text_lt(a, b)
}

/// No two texts come each before the other.
pub proof fn lemma_text_lt_asymmetric(a: Seq<char>, b: Seq<char>)
    ensures
        !(text_lt(a, b) && text_lt(b, a)),
    decreases a.len(),
{
    if a.len() > 0 && b.len() > 0 && a[0] == b[0] {
        lemma_text_lt_asymmetric(a.drop_first(), b.drop_first());
    }
}

/// How often `t` occurs among the values.
pub open spec fn occurrences(vals: Seq<Seq<char>>, t: Seq<char>) -> nat {
    vals.to_multiset().count(t)
}

/// Order of categorical bins: by count, then by label.
pub open spec fn bin_before(a: (Seq<char>, usize), b: (Seq<char>, usize)) -> bool {
    a.1 < b.1 || (a.1 == b.1 && text_lt(a.0, b.0))
}

/// `bins` are the categories of `vals`: one bin for each distinct value,
/// labelled with it and counting its occurrences, ascending by count and
/// then by label.
pub open spec fn is_category_bins(vals: Seq<Seq<char>>, bins: Seq<(Seq<char>, usize)>) -> bool {
    &&& forall|k: int|
        0 <= k < bins.len() ==> #[trigger] bins[k].1 == occurrences(vals, bins[k].0)
            && vals.contains(bins[k].0)
    &&& forall|t: Seq<char>|
        #[trigger] vals.contains(t) ==> exists|k: int| 0 <= k < bins.len() && #[trigger] bins[k].0 == t
    &&& forall|k1: int, k2: int|
        0 <= k1 < k2 < bins.len() ==> bin_before(#[trigger] bins[k1], #[trigger] bins[k2])
}

/// The texts are in text order.
pub open spec fn is_text_sorted(s: Seq<Seq<char>>) -> bool {
    forall|i: int, j: int| 0 <= i < j < s.len() ==> text_le(#[trigger] s[i], #[trigger] s[j])
}

/// Relies on itertools' `Itertools::sorted`: it collects the values and
/// sorts them with `slice::sort`, and `String`'s order compares UTF-8 bytes,
/// which orders texts as code points do.
#[verifier::external_body]
fn sorted_texts(vals: &Vec<String>) -> (r: Vec<String>)
    ensures
        texts(r@).to_multiset() == texts(vals@).to_multiset(),
        is_text_sorted(texts(r@)),
{
    vals.iter().sorted().cloned().collect()
}

/// Relies on itertools' `Itertools::sorted_by_key`: it sorts with
/// `slice::sort_by_key`, which is stable, so bins given in label order come
/// out by count and, among equal counts, still by label.
#[verifier::external_body]
fn sorted_by_count(bins: Vec<(String, usize)>) -> (r: Vec<(String, usize)>)
    requires
        forall|k1: int, k2: int|
            0 <= k1 < k2 < bins@.len() ==> text_lt(
                (#[trigger] bins@[k1]).0@,
                (#[trigger] bins@[k2]).0@,
            ),
    ensures
        bins_view(r@).to_multiset() == bins_view(bins@).to_multiset(),
        forall|k1: int, k2: int|
            0 <= k1 < k2 < r@.len() ==> bin_before(
                #[trigger] bins_view(r@)[k1],
                #[trigger] bins_view(r@)[k2],
            ),
{
    bins.into_iter().sorted_by_key(|b| b.1).collect()
}

/// Relies on itertools' `Itertools::group_by`: it yields the runs of
/// consecutive equal values, each with its key, so on sorted values each
/// distinct value makes one run, the runs come in text order, and a run
/// holds every occurrence of its value.
#[verifier::external_body]
fn group_runs(sorted: &Vec<String>) -> (r: Vec<(String, usize)>)
    requires
        is_text_sorted(texts(sorted@)),
    ensures
        forall|k: int|
            0 <= k < r@.len() ==> #[trigger] bins_view(r@)[k].1 == occurrences(
                texts(sorted@),
                bins_view(r@)[k].0,
            ) && texts(sorted@).contains(bins_view(r@)[k].0),
        forall|t: Seq<char>|
            #[trigger] texts(sorted@).contains(t) ==> exists|k: int|
                0 <= k < r@.len() && #[trigger] bins_view(r@)[k].0 == t,
        forall|k1: int, k2: int|
            0 <= k1 < k2 < r@.len() ==> text_lt(
                (#[trigger] r@[k1]).0@,
                (#[trigger] r@[k2]).0@,
            ),
        count_sum(bins_view(r@)) == sorted@.len(),
{
    let groups = sorted.iter().group_by(|v| v.as_str());
    let runs = (&groups).into_iter().map(|(k, g)| (k.to_string(), g.count())).collect();
    runs
}

/// `h` is the categorical histogram of `vals`: its bins are the categories,
/// it has no markers, and its total is the number of values, which the
/// counts add up to.
pub open spec fn is_categorical_histogram(vals: Seq<Seq<char>>, h: Histogram) -> bool {
    &&& is_category_bins(vals, h.bin_seq())
    &&& h.markers is None
    &&& h.total == vals.len()
    &&& count_sum(h.bin_seq()) == h.total
}

/// The categorical histogram: one bin per distinct value, ascending by count
/// and then by label, without markers.
pub fn histogram_from_categories(vals: &Vec<String>) -> (h: Histogram)
    ensures
        is_categorical_histogram(texts(vals@), h),
{
    let sorted = sorted_texts(vals);
    let runs = group_runs(&sorted);
    let bins = sorted_by_count(runs);
    proof {
        let vs = texts(vals@);
        let ss = texts(sorted@);
        let rv = bins_view(runs@);
        let bv = bins_view(bins@);
        assert(ss.len() == vs.len()) by {
            assert(ss.to_multiset().len() == vs.to_multiset().len());
        }
        assert forall|k: int| 0 <= k < bv.len() implies #[trigger] bv[k].1 == occurrences(vs, bv[k].0)
            && vs.contains(bv[k].0) by {
            assert(bv.contains(bv[k]));
            assert(rv.to_multiset().count(bv[k]) > 0);
            assert(rv.contains(bv[k]));
            let j = choose|j: int| 0 <= j < rv.len() && rv[j] == bv[k];
            assert(rv[j].1 == occurrences(ss, rv[j].0));
            assert(ss.contains(rv[j].0));
            assert(ss.to_multiset().count(rv[j].0) > 0);
        }
        assert forall|t: Seq<char>| #[trigger] vs.contains(t) implies exists|k: int|
            0 <= k < bv.len() && #[trigger] bv[k].0 == t by {
            assert(vs.to_multiset().count(t) > 0);
            assert(ss.contains(t));
            let j = choose|j: int| 0 <= j < rv.len() && #[trigger] rv[j].0 == t;
            assert(rv.contains(rv[j]));
            assert(bv.to_multiset().count(rv[j]) > 0);
            assert(bv.contains(rv[j]));
            let k = choose|k: int| 0 <= k < bv.len() && bv[k] == rv[j];
            assert(bv[k].0 == t);
        }
        lemma_count_sum_permutation(bv, rv);
    }
    Histogram { bins, markers: None, total: vals.len() }
}

} // verus!
