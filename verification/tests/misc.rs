use mpl_experiments::cross_loop::{double_factorial_odd, factorial, pow_i64};
use mpl_experiments::ladder::{binom_i128, binom_u128, factorial_i128, pow2_i128};
use mpl_experiments::m3_random::{build_spec, format_name, name_width, threshold, Lcg};
use mpl_experiments::path1_toy::{binom_u64, predict_max_alternations_words, predict_unconstrained_words};
use mpl_experiments::text::{parse_i64, parse_unsigned, split_on, str_less, trim, u64_to_text, i64_to_text};

#[test]
fn powers_and_factorials() {
    assert_eq!(pow_i64(3, 4), Some(81));
    assert_eq!(pow_i64(-2, 3), Some(-8));
    assert_eq!(pow_i64(2, -1), None);
    assert_eq!(pow_i64(2, 63), None);
    assert_eq!(pow_i64(7, 0), Some(1));
    assert_eq!(factorial(5), Some(120));
    assert_eq!(factorial(0), Some(1));
    assert_eq!(factorial(21), None);
    assert_eq!(double_factorial_odd(7), Some(105));
    assert_eq!(double_factorial_odd(8), Some(105));
    assert_eq!(double_factorial_odd(-1), None);
}

#[test]
fn binomials() {
    assert_eq!(binom_u64(5, 2), Some(10));
    assert_eq!(binom_u64(2, 5), Some(0));
    assert_eq!(binom_u128(66, 33).expect("fits"), 7219428434016265740);
    assert_eq!(binom_i128(10, 3).expect("fits"), 120);
    assert_eq!(binom_i128(3, 4).expect("zero"), 0);
    assert_eq!(factorial_i128(10).expect("fits"), 3628800);
    assert_eq!(pow2_i128(10).expect("fits"), 1024);
}

#[test]
fn word_count_predictions() {
    assert_eq!(predict_unconstrained_words(3), Some(8));
    assert_eq!(predict_unconstrained_words(63), None);
    // weight 4, at most one alternation: 2 * (C(3,0) + C(3,1)) = 8
    assert_eq!(predict_max_alternations_words(4, 1), Some(8));
    assert_eq!(predict_max_alternations_words(0, 5), Some(1));
    assert_eq!(predict_max_alternations_words(5, 10), Some(32));
}

#[test]
fn random_spec_helpers() {
    assert_eq!(threshold(1, 2), 1u64 << 31);
    assert_eq!(threshold(1, 1), 1u64 << 32);
    assert_eq!(name_width(0), 1);
    assert_eq!(name_width(10), 1);
    assert_eq!(name_width(11), 2);
    assert_eq!(format_name(3, 2), "l03");
    assert_eq!(format_name(123, 2), "l123");
    let mut a = Lcg::new(42);
    let mut b = Lcg::new(42);
    assert_eq!(a.next_u32(), b.next_u32());
    let v = a.next_range(1, 9);
    assert!((1..9).contains(&v));
    let spec = build_spec(4, 3, 1, 2, 7, "RND");
    assert!(spec.starts_with("[experiment]\nid = \"RND\"\nout_dir = \"reports/m3/random/RND\"\nw_min = 3\nw_max = 3\n\n"));
    assert!(spec.ends_with("[pairs]\ncount_mode = \"active_word_positions\"\n"));
}

#[test]
fn text_helpers() {
    assert_eq!(parse_unsigned("+42"), Some(42));
    assert_eq!(parse_unsigned("-1"), None);
    assert_eq!(parse_unsigned(""), None);
    assert_eq!(parse_unsigned("18446744073709551616"), None);
    assert_eq!(parse_i64("-9223372036854775808"), Some(i64::MIN));
    assert_eq!(parse_i64("9223372036854775808"), None);
    assert_eq!(split_on("a,,b", ','), vec!["a", "", "b"]);
    assert_eq!(trim("  x y \t"), "x y");
    assert!(str_less("ab", "b"));
    assert!(!str_less("b", "ab"));
    assert!(str_less("a", "ab"));
    assert_eq!(u64_to_text(0), "0");
    assert_eq!(i64_to_text(i64::MIN), "-9223372036854775808");
}
