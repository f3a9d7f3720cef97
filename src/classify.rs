use vstd::prelude::*;
use itertools::Itertools;
use crate::number::{is_float_text, parses_as_float};

verus! {

/// The texts of a dataset.
pub open spec fn texts(vals: Seq<String>) -> Seq<Seq<char>> {
    vals.map_values(|s: String| s@)
}

/// A value that holds text but does not read as a number.
pub open spec fn is_unparsed(v: Seq<char>) -> bool {
    v.len() > 0 && !is_float_text(v)
}

/// How many values are non-empty and do not read as numbers. Empty values
/// are not counted here, though they count in the dataset's size.
pub open spec fn count_unparsed(vals: Seq<Seq<char>>) -> nat
    decreases vals.len(),
{
    if vals.len() == 0 {
        0
    } else {
        count_unparsed(vals.drop_last()) + if is_unparsed(vals.last()) {
            1nat
        } else {
            0nat
        }
    }
}

/// Most of the dataset is text: the values that do not read as numbers are
/// more than half of all values (half rounded down).
pub open spec fn mostly_strings(vals: Seq<Seq<char>>) -> bool {
    count_unparsed(vals) > vals.len() / 2
}

/// The number of distinct values, compared as text.
pub open spec fn distinct_count(vals: Seq<Seq<char>>) -> nat {
    vals.to_set().len()
}

/// The dataset is shown per value: it is mostly text, or it has fewer
/// distinct values than the requested number of bins.
pub open spec fn categorical(vals: Seq<Seq<char>>, num_bins: nat) -> bool {
    mostly_strings(vals) || distinct_count(vals) < num_bins
}

/// Whether the values that are non-empty and do not read as numbers are
/// more than half of the dataset.
pub fn is_mostly_strings(vals: &Vec<String>) -> (r: bool)
    ensures
        r == mostly_strings(texts(vals@)),
{
    let mut failed: usize = 0;
    let mut i: usize = 0;
    while i < vals.len()
        invariant
            i <= vals@.len(),
            failed <= i,
            failed == count_unparsed(texts(vals@).take(i as int)),
        decreases vals@.len() - i,
    {
        proof {
            assert(texts(vals@).take(i + 1).drop_last() =~= texts(vals@).take(i as int));
        }
        let v = &vals[i];
        if !v.as_str().is_empty() && !parses_as_float(v.as_str()) {
            failed = failed + 1;
        }
        i = i + 1;
    }
    assert(texts(vals@).take(vals@.len() as int) =~= texts(vals@));
    failed > vals.len() / 2
}

/// Relies on itertools' `Itertools::unique`: it yields each value that
/// `Eq` tells apart from the ones before it once, so counting what it yields
/// counts the distinct texts.
#[verifier::external_body]
fn count_distinct(vals: &Vec<String>) -> (r: usize)
    ensures
        r == distinct_count(texts(vals@)),
{
    vals.iter().unique().count()
}

/// Whether the dataset is to be shown per value rather than in numeric bins.
pub fn is_categorical(vals: &Vec<String>, num_bins: usize) -> (r: bool)
    ensures
        r == categorical(texts(vals@), num_bins as nat),
{
    let mostly = is_mostly_strings(vals);
    let distinct = count_distinct(vals);
    mostly || distinct < num_bins
}

} // verus!
