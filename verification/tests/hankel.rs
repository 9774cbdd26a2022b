use mpl_experiments::hankel_subblock::{
    compute_dependencies_mod_p, format_i64_list, format_mod_coeff, format_terms, format_usize_list, parse_coeff,
    parse_csv_line, parse_loop_field, parse_params, row_basis_indices_mod_p, solve_linear_system_mod_p,
    transpose_mod_p,
};
use mpl_experiments::rank_scan::Rational;

#[test]
fn csv_lines_with_quotes() {
    let f = parse_csv_line("a,\"b,c\",\"say \"\"hi\"\"\",").expect("line");
    assert_eq!(f, vec!["a", "b,c", "say \"hi\"", ""]);
    assert!(parse_csv_line("\"open").is_err());
    assert_eq!(parse_csv_line("").expect("empty"), vec![""]);
}

#[test]
fn params_and_loop_fields() {
    let (r, k, u, v) = parse_params("r=2, k=3,u=xy ,v=yx,z=1").expect("params");
    assert_eq!((r, k, u.as_str(), v.as_str()), (2, 3, "xy", "yx"));
    assert!(parse_params("r=2,k=2,u=x").is_err());
    assert!(parse_params("r=two,k=2,u=x,v=y").is_err());
    assert_eq!(parse_loop_field(" cL12 "), Some(12));
    assert_eq!(parse_loop_field("L12"), None);
    assert_eq!(parse_loop_field("cLx"), None);
}

#[test]
fn coefficients() {
    assert_eq!(parse_coeff("-6/4").expect("frac"), Rational { numer: -3, denom: 2 });
    assert_eq!(parse_coeff(" 7 ").expect("int"), Rational { numer: 7, denom: 1 });
    assert!(parse_coeff("1/0").is_err());
    assert!(parse_coeff("x").is_err());
}

#[test]
fn formatting() {
    assert_eq!(format_mod_coeff(100, 101), "-1");
    assert_eq!(format_mod_coeff(50, 101), "50");
    assert_eq!(format_mod_coeff(-3, 0), "-3");
    assert_eq!(format_terms(&[], 7), "0");
    assert_eq!(format_terms(&[(6, "a".to_string()), (2, "b".to_string())], 7), "-1*a + 2*b");
    assert_eq!(format_usize_list(&[]), "[]");
    assert_eq!(format_usize_list(&[1, 20]), "[1, 20]");
    assert_eq!(format_i64_list(&[-1, 2]), "[-1, 2]");
}

#[test]
fn linear_algebra_mod_p() {
    let m = vec![vec![1, 2], vec![3, 4], vec![4, 6]];
    assert_eq!(transpose_mod_p(&m), vec![vec![1, 3, 4], vec![2, 4, 6]]);
    let basis = row_basis_indices_mod_p(&m, 7);
    assert_eq!(basis, vec![0, 1]);
    // x + 2y = 5, 3x + 4y = 11 -> x = 1, y = 2
    let x = solve_linear_system_mod_p(&[vec![1, 2], vec![3, 4]], &[5, 11], 101).expect("solution");
    assert_eq!(x, vec![1, 2]);
    assert!(solve_linear_system_mod_p(&[vec![1, 1], vec![2, 2]], &[1, 3], 101).is_none());
    assert!(solve_linear_system_mod_p(&[], &[], 101).is_none());
}

#[test]
fn dependencies_cover_every_non_basis_row() {
    // Row 2 is row 0 plus twice row 1; row 3 is zero.
    let m = vec![vec![1, 2, 3], vec![0, 1, 1], vec![1, 4, 5], vec![0, 0, 0]];
    let ids: Vec<String> = vec!["a".to_string(), "b".to_string(), "c".to_string(), "d".to_string()];
    let deps = compute_dependencies_mod_p(&m, &ids, 4, 7).expect("dependencies");
    assert_eq!(deps.len(), 2);
    assert_eq!(deps[0].id, "c");
    assert_eq!(deps[0].terms, vec![(1, "a".to_string()), (2, "b".to_string())]);
    assert_eq!(deps[1].id, "d");
    assert!(deps[1].terms.is_empty());
    assert!(deps.iter().all(|d| d.loop_index == 4 && d.prime == 7));
    let bad_ids: Vec<String> = vec!["a".to_string()];
    assert!(compute_dependencies_mod_p(&m, &bad_ids, 4, 7).is_err());
}
