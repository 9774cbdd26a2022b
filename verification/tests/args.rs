use mpl_experiments::args::{
    format_suffix_names, next_arg, parse_i64_list, parse_list, parse_loop_list, suffix_label, unique_suffix_label,
};

fn strings(items: &[&str]) -> Vec<String> {
    items.iter().map(|s| s.to_string()).collect()
}

#[test]
fn parse_list_stops_at_next_flag() {
    let args = strings(&["--loops", "a, b", ",c,", "--other", "d"]);
    let mut idx = 1usize;
    let out = parse_list(&args, &mut idx, "--loops").unwrap();
    assert_eq!(out, strings(&["a", "b", "c"]));
    assert_eq!(idx, 3);
}

#[test]
fn parse_list_without_values_is_an_error() {
    let args = strings(&["--loops", "--other"]);
    let mut idx = 1usize;
    let err = parse_list(&args, &mut idx, "--loops").unwrap_err();
    assert_eq!(err, "missing values after --loops");
    assert_eq!(idx, 1);
    let blank = strings(&[" , "]);
    let mut idx = 0usize;
    assert!(parse_list(&blank, &mut idx, "--x").is_err());
    assert_eq!(idx, 1);
}

#[test]
fn parse_i64_list_reads_signed_values() {
    let args = strings(&["1,-2", "+3"]);
    let mut idx = 0usize;
    assert_eq!(parse_i64_list(&args, &mut idx, "--coeffs").unwrap(), vec![1, -2, 3]);
    assert_eq!(idx, 2);
    let bad = strings(&["4, x", "5"]);
    let mut idx = 0usize;
    assert_eq!(parse_i64_list(&bad, &mut idx, "--coeffs").unwrap_err(), "invalid --coeffs value: x");
    assert_eq!(idx, 2);
}

#[test]
fn parse_loop_list_sorts_and_merges_ranges() {
    let args = strings(&["5,1..3", "2 .. 4", "--next"]);
    let mut idx = 0usize;
    assert_eq!(parse_loop_list(&args, &mut idx, "--loops").unwrap(), vec![1, 2, 3, 4, 5]);
    assert_eq!(idx, 2);
    let single = strings(&["7..7"]);
    let mut idx = 0usize;
    assert_eq!(parse_loop_list(&single, &mut idx, "--loops").unwrap(), vec![7]);
}

#[test]
fn parse_loop_list_reports_the_first_bad_value() {
    let cases = [
        ("5..3", "invalid --loops range: 5..3"),
        ("a..3", "invalid --loops range start: a..3"),
        ("1..b", "invalid --loops range end: 1..b"),
        ("q", "invalid --loops value: q"),
    ];
    for (arg, msg) in cases {
        let args = strings(&["1", arg, "2"]);
        let mut idx = 0usize;
        assert_eq!(parse_loop_list(&args, &mut idx, "--loops").unwrap_err(), msg);
        assert_eq!(idx, 1);
    }
    let empty = strings(&["--x"]);
    let mut idx = 0usize;
    assert_eq!(parse_loop_list(&empty, &mut idx, "--loops").unwrap_err(), "missing values after --loops");
    assert_eq!(idx, 0);
}

#[test]
fn next_arg_takes_one_value() {
    let args = strings(&["--spec", "a.toml"]);
    let mut idx = 1usize;
    assert_eq!(next_arg(&args, &mut idx, "--spec").unwrap(), "a.toml");
    assert_eq!(idx, 2);
    assert_eq!(next_arg(&args, &mut idx, "--spec").unwrap_err(), "missing value after --spec");
    assert_eq!(idx, 2);
}

#[test]
fn suffix_labels_are_sanitized() {
    assert_eq!(suffix_label(&strings(&["a-b", "c"])), "a_b_c");
    assert_eq!(suffix_label(&strings(&["__x  y", "z!"])), "x_y_z");
    assert_eq!(suffix_label(&strings(&["--", "!!"])), "suffix");
    assert_eq!(suffix_label(&strings(&[])), "suffix");
    assert_eq!(format_suffix_names(&strings(&["l1", "l2"])), "l1 l2");
}

#[test]
fn unique_suffix_labels_number_repeats() {
    let mut used: Vec<String> = Vec::new();
    let names = strings(&["l1", "l2"]);
    assert_eq!(unique_suffix_label(&names, &mut used), "l1_l2");
    assert_eq!(unique_suffix_label(&names, &mut used), "l1_l2_1");
    assert_eq!(unique_suffix_label(&names, &mut used), "l1_l2_2");
    let mut taken = strings(&["l1_l2", "l1_l2_2"]);
    assert_eq!(unique_suffix_label(&names, &mut taken), "l1_l2_1");
    assert_eq!(used.len(), 3);
}
