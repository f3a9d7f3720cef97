use vstd::prelude::*;

verus! {

/// Where the lines of a dataset come from.
pub enum InputSource {
    FileName(String),
    Stdin,
}

/// Why no histogram could be made.
#[derive(Debug, Clone, Copy, PartialEq, Eq, Structural)]
pub enum HistogramError {
    /// No input source could be chosen.
    UsageError,
    /// The named file could not be opened.
    IoError,
    /// A line could not be read as text.
    ReadError,
    /// The numeric binner found no value that reads as a number.
    NoDataError,
}

/// A ratio `num / den` with a positive denominator.
#[derive(Debug, Clone, Copy, PartialEq, Eq, Structural)]
pub struct Fraction {
    pub num: u64,
    pub den: u64,
}

/// The positions of the quartile values within the observed range, each
/// from 0 (the minimum) to 1 (the maximum).
#[derive(Debug, Clone, Copy, PartialEq, Eq, Structural)]
pub struct Markers {
    pub p25: Fraction,
    pub p50: Fraction,
    pub p75: Fraction,
}

/// Labelled bins with their counts, the quartile markers of a numeric
/// histogram, and the total of the counts.
pub struct Histogram {
    pub bins: Vec<(String, usize)>,
    pub markers: Option<Markers>,
    pub total: usize,
}

/// The bins as labels and counts.
pub open spec fn bins_view(bins: Seq<(String, usize)>) -> Seq<(Seq<char>, usize)> {
    bins.map_values(|b: (String, usize)| (b.0@, b.1))
}

/// The sum of the counts.
pub open spec fn count_sum(bins: Seq<(Seq<char>, usize)>) -> nat
    decreases bins.len(),
{
    if bins.len() == 0 {
        0
    } else {
        count_sum(bins.drop_last()) + bins.last().1 as nat
    }
}

/// The counts of two bin sequences add up across their concatenation.
pub proof fn lemma_count_sum_concat(a: Seq<(Seq<char>, usize)>, b: Seq<(Seq<char>, usize)>)
    ensures
        count_sum(a + b) == count_sum(a) + count_sum(b),
    decreases b.len(),
{
    if b.len() == 0 {
        assert(a + b =~= a);
    } else {
        assert((a + b).drop_last() =~= a + b.drop_last());
        lemma_count_sum_concat(a, b.drop_last());
    }
}

/// Reordering bins keeps the sum of their counts.
pub proof fn lemma_count_sum_permutation(a: Seq<(Seq<char>, usize)>, b: Seq<(Seq<char>, usize)>)
    requires
        a.to_multiset() == b.to_multiset(),
    ensures
        count_sum(a) == count_sum(b),
    decreases a.len(),
{
    broadcast use vstd::seq_lib::group_to_multiset_ensures;

    if a.len() == 0 {
        assert(b.to_multiset().len() == 0);
        assert(b =~= Seq::<(Seq<char>, usize)>::empty());
    } else {
        let x = a.last();
        let a2 = a.drop_last();
        assert(a =~= a2.push(x));
        assert(a.contains(x));
        assert(b.to_multiset().count(x) > 0);
        assert(b.contains(x));
        let j = choose|j: int| 0 <= j < b.len() && b[j] == x;
        let b2 = b.remove(j);
        assert(b2.to_multiset() == b.to_multiset().remove(x));
        assert(a2.to_multiset() =~= a.to_multiset().remove(x));
        lemma_count_sum_permutation(a2, b2);
        let pre = b.take(j);
        let post = b.skip(j + 1);
        assert(b2 =~= pre + post);
        assert(b =~= pre.push(x) + post);
        assert(pre.push(x).drop_last() =~= pre);
        lemma_count_sum_concat(pre, post);
        lemma_count_sum_concat(pre.push(x), post);
    }
}

impl Fraction {
    /// The ratio lies in `[0, 1]`.
    pub open spec fn in_unit_range(self) -> bool {
        self.den > 0 && self.num <= self.den
    }
}

impl Markers {
    pub open spec fn in_unit_range(self) -> bool {
        self.p25.in_unit_range() && self.p50.in_unit_range() && self.p75.in_unit_range()
    }
}

impl Histogram {
    /// The bins as labels and counts.
    pub open spec fn bin_seq(&self) -> Seq<(Seq<char>, usize)> {
        bins_view(self.bins@)
    }
}

} // verus!
