use hist2::{
    compute_histogram, histogram_from_categories, histogram_from_numbers, is_categorical,
    is_mostly_strings, parses_as_float, read_float, scaled_string, Fraction, HistogramError, Markers,
    Reading,
};

fn lines(v: &[&str]) -> Vec<String> {
    v.iter().map(|s| s.to_string()).collect()
}

fn bins(v: &[(&str, usize)]) -> Vec<(String, usize)> {
    v.iter().map(|(s, c)| (s.to_string(), *c)).collect()
}

const E15: u64 = 1_000_000_000_000_000;
const E17: u64 = 100_000_000_000_000_000;

fn frac(num: u64, den: u64) -> Fraction {
    Fraction { num, den }
}

#[test]
fn categorical_bins_ascend_by_count() {
    let vals = lines(&["a", "b", "a", "c", "b", "a"]);
    assert!(is_categorical(&vals, 20));
    let h = compute_histogram(20, &vals).unwrap();
    assert_eq!(h.bins, bins(&[("c", 1), ("b", 2), ("a", 3)]));
    assert_eq!(h.markers, None);
    assert_eq!(h.total, 6);
}

#[test]
fn categorical_ties_break_by_label() {
    let vals = lines(&["b", "a", "b", "a", "c"]);
    let h = histogram_from_categories(&vals);
    assert_eq!(h.bins, bins(&[("c", 1), ("a", 2), ("b", 2)]));
    assert_eq!(h.total, 5);
}

#[test]
fn categorical_keeps_empty_values() {
    let vals = lines(&["x", "", "", "y"]);
    let h = histogram_from_categories(&vals);
    assert_eq!(h.bins, bins(&[("x", 1), ("y", 1), ("", 2)]));
    assert_eq!(h.total, 4);
}

#[test]
fn categorical_of_nothing_is_empty() {
    let vals: Vec<String> = Vec::new();
    let h = compute_histogram(20, &vals).unwrap();
    assert!(h.bins.is_empty());
    assert_eq!(h.total, 0);
}

#[test]
fn ten_distinct_numbers_under_twenty_bins_are_categorical() {
    let vals = lines(&["1", "2", "3", "4", "5", "6", "7", "8", "9", "10"]);
    assert!(!is_mostly_strings(&vals));
    assert!(is_categorical(&vals, 20));
    let h = compute_histogram(20, &vals).unwrap();
    assert_eq!(h.bins.len(), 10);
    assert_eq!(h.markers, None);
    assert_eq!(h.total, 10);
}

#[test]
fn numeric_one_to_hundred_in_four_bins() {
    let vals: Vec<String> = (1..=100).map(|i| i.to_string()).collect();
    assert!(!is_categorical(&vals, 4));
    let h = compute_histogram(4, &vals).unwrap();
    assert_eq!(
        h.bins,
        bins(&[
            ("1.000000000000000", 13),
            ("25.750000000000000", 25),
            ("50.500000000000000", 24),
            ("75.250000000000000", 38),
        ])
    );
    assert_eq!(
        h.markers,
        Some(Markers {
            p25: frac(25 * E15, 99 * E15),
            p50: frac(50 * E15, 99 * E15),
            p75: frac(75 * E15, 99 * E15),
        })
    );
    assert_eq!(h.total, 100);
    let sum: usize = h.bins.iter().map(|b| b.1).sum();
    assert_eq!(sum, h.total);
}

#[test]
fn numeric_always_has_num_bins() {
    let vals = lines(&["1", "2", "3", "100"]);
    let h = compute_histogram(4, &vals).unwrap();
    assert_eq!(h.bins.len(), 4);
    assert_eq!(h.bins.iter().map(|b| b.1).collect::<Vec<_>>(), vec![3, 0, 0, 1]);
}

#[test]
fn numeric_rounds_halves_up_and_folds_maximum() {
    let vals = lines(&["0", "0.5", "4", "1", "2", "3"]);
    let h = histogram_from_numbers(&vals, 4).unwrap();
    assert_eq!(h.bins.iter().map(|b| b.1).collect::<Vec<_>>(), vec![1, 2, 1, 2]);
    assert_eq!(h.total, 6);
}

#[test]
fn numeric_negative_values_and_markers() {
    let vals = lines(&["1", "-1", "0"]);
    let h = compute_histogram(2, &vals).unwrap();
    assert_eq!(h.bins, bins(&[("-1.00000000000000000", 1), ("0.00000000000000000", 2)]));
    assert_eq!(
        h.markers,
        Some(Markers {
            p25: frac(0, 2 * E17),
            p50: frac(E17, 2 * E17),
            p75: frac(2 * E17, 2 * E17),
        })
    );
}

#[test]
fn numeric_skips_blank_and_text_values() {
    let vals = lines(&["1", "", "2", "x", "3", ""]);
    assert!(!is_categorical(&vals, 3));
    let h = compute_histogram(3, &vals).unwrap();
    assert_eq!(h.total, 3);
    // 2 lies 1.5 bin widths above the minimum, which rounds up to bin 2.
    assert_eq!(h.bins.iter().map(|b| b.1).collect::<Vec<_>>(), vec![1, 0, 2]);
}

#[test]
fn blank_lines_count_only_in_the_denominator() {
    // Four text values out of eight: not more than half.
    let vals = lines(&["a", "b", "c", "d", "", "", "", ""]);
    assert!(!is_mostly_strings(&vals));
    // Five text values out of eight: more than half.
    let vals = lines(&["a", "b", "c", "d", "e", "", "", ""]);
    assert!(is_mostly_strings(&vals));
    // Blank lines beside numbers are not text.
    let vals = lines(&["", "", "", "1", "2"]);
    assert!(!is_mostly_strings(&vals));
}

#[test]
fn single_value_is_categorical() {
    let vals = lines(&["5"; 10]);
    assert!(is_categorical(&vals, 20));
    let h = compute_histogram(20, &vals).unwrap();
    assert_eq!(h.bins, bins(&[("5", 10)]));
    assert_eq!(h.markers, None);
    assert_eq!(h.total, 10);
}

#[test]
fn degenerate_range_puts_everything_in_bin_zero() {
    let vals = lines(&["5"; 10]);
    assert!(!is_categorical(&vals, 1));
    let h = compute_histogram(1, &vals).unwrap();
    assert_eq!(h.bins, bins(&[("5.00000000000000000", 10)]));
    let zero = frac(0, 1);
    assert_eq!(h.markers, Some(Markers { p25: zero, p50: zero, p75: zero }));
}

#[test]
fn no_numbers_is_no_data() {
    let vals = lines(&["", ""]);
    assert!(!is_categorical(&vals, 1));
    assert_eq!(compute_histogram(1, &vals).err(), Some(HistogramError::NoDataError));
    assert_eq!(histogram_from_numbers(&vals, 3).err(), Some(HistogramError::NoDataError));
}

#[test]
fn computing_twice_gives_the_same_histogram() {
    let vals = lines(&["q", "p", "q", "r", "p", "q", "s"]);
    let a = compute_histogram(20, &vals).unwrap();
    let b = compute_histogram(20, &vals).unwrap();
    assert_eq!(a.bins, b.bins);
    assert_eq!(a.markers, b.markers);
    assert_eq!(a.total, b.total);
}

#[test]
fn markers_lie_in_unit_range() {
    let vals: Vec<String> = (0..37).map(|i| (i * i % 23).to_string()).collect();
    let h = compute_histogram(5, &vals).unwrap();
    let m = h.markers.unwrap();
    for f in [m.p25, m.p50, m.p75] {
        assert!(f.den > 0 && f.num <= f.den);
    }
}

#[test]
fn float_grammar() {
    for s in ["1", "-1", "+1.5", "1.", ".5", "1e5", "1E-5", "2.5e+3", "inf", "-Infinity", "NaN", "nan"] {
        assert!(parses_as_float(s), "{}", s);
    }
    for s in ["", ".", "e5", "1e", "1.2.3", " 1", "1 ", "abc", "--1", "infinit", "0x10", "1e+"] {
        assert!(!parses_as_float(s), "{}", s);
    }
}

fn finite(s: &str) -> Option<(bool, String, i128)> {
    match read_float(s) {
        Some(Reading::Finite { negative, digits, order }) => {
            Some((negative, digits.iter().collect(), order))
        }
        _ => None,
    }
}

#[test]
fn float_readings() {
    assert_eq!(finite("1.5"), Some((false, "15".to_string(), 1)));
    assert_eq!(finite("-2e3"), Some((true, "2".to_string(), 4)));
    assert_eq!(finite("0.00250"), Some((false, "250".to_string(), -2)));
    assert_eq!(finite("1e13"), Some((false, "1".to_string(), 14)));
    assert_eq!(finite("3.4e38"), Some((false, "34".to_string(), 39)));
    assert!(matches!(read_float("0"), Some(Reading::Zero)));
    assert!(matches!(read_float("-0.000"), Some(Reading::Zero)));
    assert!(matches!(read_float("1e-60"), Some(Reading::Zero)));
    assert!(matches!(read_float("0e99999999999999999999999999999999"), Some(Reading::Zero)));
    assert!(matches!(read_float("inf"), Some(Reading::High)));
    assert!(matches!(read_float("+Infinity"), Some(Reading::High)));
    assert!(matches!(read_float("NaN"), Some(Reading::High)));
    assert!(matches!(read_float("-nan"), Some(Reading::High)));
    assert!(matches!(read_float("-inf"), Some(Reading::Low)));
    assert!(matches!(read_float("1e40"), Some(Reading::High)));
    assert!(matches!(read_float("-1e99999999999999999999999999999999"), Some(Reading::Low)));
    assert!(read_float("abc").is_none());
    assert!(read_float("").is_none());
}

#[test]
fn infinity_alone_fills_the_last_bin() {
    let vals = lines(&["inf"]);
    assert!(!is_categorical(&vals, 1));
    let h = compute_histogram(1, &vals).unwrap();
    assert_eq!(h.bins, bins(&[("0", 1)]));
    assert_eq!(h.total, 1);
    let zero = frac(0, 1);
    assert_eq!(h.markers, Some(Markers { p25: zero, p50: zero, p75: zero }));
}

#[test]
fn large_finite_values_are_kept() {
    let vals = lines(&["1e13"]);
    let h = histogram_from_numbers(&vals, 1).unwrap();
    assert_eq!(h.bins, bins(&[("10000000000000.0000", 1)]));
    assert_eq!(h.total, 1);
    let vals = lines(&["1700000000000000", "1700000000000001", "1700000000000003"]);
    let h = histogram_from_numbers(&vals, 3).unwrap();
    assert_eq!(h.bins.iter().map(|b| b.1).collect::<Vec<_>>(), vec![1, 1, 1]);
}

#[test]
fn infinities_and_nan_go_to_the_end_bins() {
    let vals = lines(&["1e13", "-inf", "nan", "0", "5"]);
    assert!(!is_categorical(&vals, 2));
    let h = compute_histogram(2, &vals).unwrap();
    assert_eq!(h.bins, bins(&[("0.0000", 3), ("5000000000000.0000", 2)]));
    assert_eq!(h.total, 5);
    assert_eq!(
        h.markers,
        Some(Markers {
            p25: frac(0, E17),
            p50: frac(50_000, E17),
            p75: frac(E17, E17),
        })
    );
}

#[test]
fn scaled_text_forms() {
    assert_eq!(scaled_string(-15, 1), "-1.5");
    assert_eq!(scaled_string(15, -2), "1500");
    assert_eq!(scaled_string(0, -3), "0");
    assert_eq!(scaled_string(42, 6), "0.000042");
    assert_eq!(scaled_string(123_456_789, 6), "123.456789");
    assert_eq!(scaled_string(i64::MIN, 6), "-9223372036854.775808");
    assert_eq!(scaled_string(7, 25), format!("0.{}7", "0".repeat(24)));
}
