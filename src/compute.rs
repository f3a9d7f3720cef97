use vstd::prelude::*;
use crate::categorical::{histogram_from_categories, is_categorical_histogram};
use crate::classify::{categorical, is_categorical, texts};
use crate::histogram::{Histogram, HistogramError};
use crate::numeric::{float_texts, histogram_from_numbers, is_numeric_histogram};

verus! {

/// `r` is what the histogram of the values in `num_bins` bins comes to: the
/// categorical histogram when the classifier says so, else the numeric one,
/// or `NoDataError` when no value reads as a float.
pub open spec fn histogram_result(
    vals: Seq<Seq<char>>,
    num_bins: nat,
    r: Result<Histogram, HistogramError>,
) -> bool {
    if categorical(vals, num_bins) {
        r is Ok && is_categorical_histogram(vals, r->Ok_0)
    } else {
        match r {
            Ok(h) => is_numeric_histogram(vals, num_bins, h),
            Err(e) => e == HistogramError::NoDataError && float_texts(vals).len() == 0,
        }
    }
}

/// Classifies the dataset and bins it in the way chosen.
pub fn compute_histogram(num_bins: usize, vals: &Vec<String>) -> (r: Result<
    Histogram,
    HistogramError,
>)
    requires
        num_bins > 0,
    ensures
        histogram_result(texts(vals@), num_bins as nat, r),
{
    if is_categorical(vals, num_bins) {
        Ok(histogram_from_categories(vals))
    } else {
        histogram_from_numbers(vals, num_bins)
    }
}

} // verus!
