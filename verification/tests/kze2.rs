use mpl_experiments::kze2::cli::{next_arg, parse_u64, parse_usize};
use mpl_experiments::kze2::field::Field;
use mpl_experiments::kze2::linalg::{dot, identity, independent_row_indices, invert, mat_mul, pivot_columns, zeros};
use mpl_experiments::kze2::words::{count_words_exact, word_from_index, words_upto};
use mpl_experiments::kze2::{
    build_kze2_matrices, lcg_step, run_kze2_hankel_mvp, Kze2HankelMvpConfig,
};

#[test]
fn kze2_hankel_mvp_holdout_matches() {
    let cfg = Kze2HankelMvpConfig {
        r: 10,
        prime: 1_000_003,
        prefix_len: 3,
        holdout_len: 6,
    };
    let report = run_kze2_hankel_mvp(&cfg).expect("run kze2 hankel mvp");
    assert_eq!(report.mismatches, 0);
}

#[test]
fn kze2_report_fields() {
    let cfg = Kze2HankelMvpConfig {
        r: 4,
        prime: 101,
        prefix_len: 2,
        holdout_len: 3,
    };
    let report = run_kze2_hankel_mvp(&cfg).expect("run");
    assert_eq!(report.w_train, 5);
    assert_eq!(report.total_holdout_words, 125);
    assert_eq!(report.r, 4);
    assert!(report.hankel_rank >= 1 && report.hankel_rank <= 31);
    assert_eq!(report.mismatches, 0);
}

#[test]
fn kze2_rejects_bad_config() {
    let mut cfg = Kze2HankelMvpConfig::default();
    cfg.r = 3;
    assert!(run_kze2_hankel_mvp(&cfg).is_err());
    cfg.r = 0;
    assert!(run_kze2_hankel_mvp(&cfg).is_err());
    let mut cfg = Kze2HankelMvpConfig::default();
    cfg.prefix_len = 0;
    assert!(run_kze2_hankel_mvp(&cfg).is_err());
    let mut cfg = Kze2HankelMvpConfig::default();
    cfg.prime = 1;
    assert!(run_kze2_hankel_mvp(&cfg).is_err());
    let mut cfg = Kze2HankelMvpConfig::default();
    cfg.r = 40;
    cfg.prefix_len = 2;
    assert!(run_kze2_hankel_mvp(&cfg).is_err());
}

#[test]
fn field_arithmetic_values() {
    let f = Field::new(7).expect("field");
    assert!(Field::new(1).is_err());
    assert_eq!(f.prime(), 7);
    let a = f.reduce_u64(12);
    let b = f.reduce_i64(-3);
    assert_eq!(a, f.reduce_u64(5));
    assert_eq!(b, f.reduce_u64(4));
    assert_eq!(f.add(a, b), f.reduce_u64(2));
    assert_eq!(f.sub(b, a), f.reduce_u64(6));
    assert_eq!(f.mul(a, b), f.reduce_u64(6));
    let inv = f.inv(a).expect("inverse");
    assert_eq!(f.mul(inv, a), f.one());
    assert_eq!(inv, f.reduce_u64(3));
    assert!(f.inv(f.zero()).is_none());
    let g = Field::new(8).expect("field");
    assert!(g.inv(g.reduce_u64(4)).is_none());
    assert_eq!(g.inv(g.reduce_u64(3)), Some(g.reduce_u64(3)));
}

#[test]
fn invert_gives_left_inverse() {
    let f = Field::new(101).expect("field");
    let mat = vec![
        vec![f.reduce_u64(2), f.reduce_u64(1)],
        vec![f.reduce_u64(5), f.reduce_u64(3)],
    ];
    let inv = invert(&mat, &f).expect("invertible");
    let prod = mat_mul(&inv, &mat, &f);
    assert_eq!(prod, identity(2, &f));
    let singular = vec![
        vec![f.reduce_u64(1), f.reduce_u64(2)],
        vec![f.reduce_u64(2), f.reduce_u64(4)],
    ];
    assert!(invert(&singular, &f).is_err());
    let wide = vec![vec![f.reduce_u64(1), f.reduce_u64(2), f.reduce_u64(3)]];
    assert!(invert(&wide, &f).is_err());
    assert_eq!(pivot_columns(&singular, &f).expect("pivots"), vec![0]);
    assert_eq!(pivot_columns(&zeros(2, 3, &f), &f).expect("pivots"), Vec::<usize>::new());
    assert_eq!(dot(&mat[0], &mat[1], &f), f.reduce_u64(13));
}

#[test]
fn words_are_enumerated_by_length_then_lexicographically() {
    let words = words_upto(2, 3);
    assert_eq!(words.len(), 1 + 3 + 9);
    assert_eq!(words[0], Vec::<u8>::new());
    assert_eq!(words[1], vec![0]);
    assert_eq!(words[3], vec![2]);
    assert_eq!(words[4], vec![0, 0]);
    assert_eq!(words[5], vec![0, 1]);
    assert_eq!(words[12], vec![2, 2]);
    assert_eq!(word_from_index(7, 3, 5), vec![0, 1, 2]);
    assert_eq!(count_words_exact(6, 5).expect("count"), 15625);
    assert!(count_words_exact(64, 2).is_err());
    assert_eq!(count_words_exact(63, 2).expect("count"), 1u64 << 63);
}

#[test]
fn kze2_matrices_are_block_diagonal() {
    let f = Field::new(1_000_003).expect("field");
    assert!(build_kze2_matrices(3, &f).is_err());
    let ms = build_kze2_matrices(4, &f).expect("matrices");
    assert_eq!(ms.len(), 5);
    assert_eq!(ms[1][3][3], f.reduce_u64(2));
    assert_eq!(ms[4][2][3], f.reduce_i64(-2));
    assert_eq!(ms[3][0][1], f.reduce_u64(1));
    assert_eq!(ms[3][0][2], f.zero());
    assert_eq!(lcg_step(0), 1442695040888963407);
}

#[test]
fn cli_values_parse_like_std() {
    let args = vec!["--r".to_string(), "12".to_string()];
    let mut idx = 1usize;
    assert_eq!(next_arg(&args, &mut idx, "--r"), Ok("12".to_string()));
    assert_eq!(idx, 2);
    assert!(next_arg(&args, &mut idx, "--r").is_err());
    assert_eq!(idx, 2);
    assert_eq!(parse_usize("+42", "--r"), Ok(42));
    assert!(parse_usize("4x", "--r").is_err());
    assert!(parse_usize("", "--r").is_err());
    assert!(parse_usize("-1", "--r").is_err());
    assert_eq!(parse_u64("18446744073709551615", "--prime"), Ok(u64::MAX));
    assert!(parse_u64("18446744073709551616", "--prime").is_err());
}

#[test]
fn independent_rows_are_the_pivot_rows() {
    let f = Field::new(7).expect("field");
    let v = |x: u64| f.reduce_u64(x);
    // Row 1 is twice row 0; rows 0 and 2 are independent.
    let m = vec![vec![v(1), v(2)], vec![v(2), v(4)], vec![v(0), v(1)]];
    let ids = independent_row_indices(&m, &f).expect("rows");
    assert_eq!(ids, vec![0, 2]);
    let zero = vec![vec![v(0), v(0)], vec![v(0), v(0)]];
    assert!(independent_row_indices(&zero, &f).expect("rows").is_empty());
}
