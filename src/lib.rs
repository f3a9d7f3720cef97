//! Histogram summaries of line-oriented text data.
//!
//! A dataset is a sequence of text values, one per line. The classifier
//! decides whether it is shown per distinct value (categorical) or in
//! equal-width numeric bins, and the two binners build the bins, the counts
//! and, for numbers, three quartile markers.
//!
//! Every value that reads as a float is binned. Numbers are read exactly
//! from their decimal text and held as whole multiples of a power of ten
//! chosen for the dataset, which gives the largest finite number eighteen
//! significant digits (finer places are cut off). Numbers of `10^39` and
//! more count as infinite and those under `10^-50` as zero, as for an
//! `f32`. Minus infinity goes to the first bin, plus infinity and NaN to
//! the last. Bin edges, bin indices and quartile markers are exact over
//! those values, and markers are ratios of integers in `[0, 1]`.

pub mod categorical;
pub mod classify;
pub mod compute;
pub mod histogram;
pub mod label;
pub mod laws;
pub mod number;
pub mod numeric;
pub mod value;

pub use categorical::histogram_from_categories;
pub use classify::{is_categorical, is_mostly_strings};
pub use compute::compute_histogram;
pub use label::scaled_string;
pub use number::{chars_of, parses_as_float};
pub use numeric::histogram_from_numbers;
pub use value::{read_float, Reading};
pub use histogram::{Fraction, Histogram, HistogramError, InputSource, Markers};
