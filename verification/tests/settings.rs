use mpl_experiments::cross_loop::{cross_loop_mode, dedup_suffixes, CrossLoopMode, CrossLoopSettings};
use mpl_experiments::error::ExperimentError;
use mpl_experiments::kze2::field::Field;
use mpl_experiments::kze2::linalg::invert;
use mpl_experiments::kze2::spectral::spectral_learn;
use mpl_experiments::kze2::words::count_words_exact;

fn settings() -> CrossLoopSettings {
    CrossLoopSettings {
        weight: None,
        weight_min: None,
        weight_max: None,
        loop_value: None,
        weight_per_loop: 2,
        suffix_count: 1,
        export_constraints: false,
        no_mapping: false,
    }
}

fn text(e: ExperimentError) -> String {
    match e {
        ExperimentError::InvalidConfig(m) => m,
    }
}

#[test]
fn cross_loop_single_weight_from_loop() {
    let s = CrossLoopSettings { loop_value: Some(4), ..settings() };
    assert_eq!(cross_loop_mode(&s), Ok(CrossLoopMode::Single { weight: 8 }));
    let s = CrossLoopSettings { weight: Some(5), loop_value: Some(4), ..settings() };
    assert_eq!(cross_loop_mode(&s), Ok(CrossLoopMode::Single { weight: 5 }));
}

#[test]
fn cross_loop_settings_errors() {
    let s = CrossLoopSettings { loop_value: Some(usize::MAX), ..settings() };
    assert_eq!(cross_loop_mode(&s), Err("loop * weight-per-loop overflow".to_string()));
    assert_eq!(cross_loop_mode(&settings()), Err("missing --weight <n> (or --loop <n>)".to_string()));
    let s = CrossLoopSettings { weight: Some(3), export_constraints: true, no_mapping: true, ..settings() };
    assert_eq!(cross_loop_mode(&s), Err("--export-constraints requires mapping".to_string()));
    let s = CrossLoopSettings { weight: Some(3), suffix_count: 2, ..settings() };
    assert_eq!(cross_loop_mode(&s), Err("single-weight mode requires exactly one --suffix".to_string()));
    let s = CrossLoopSettings { weight: Some(3), suffix_count: 0, ..settings() };
    assert_eq!(cross_loop_mode(&s), Err("missing --suffix <letters...> or --suffixes-toml <path>".to_string()));
}

#[test]
fn cross_loop_scan_needs_both_bounds() {
    let s = CrossLoopSettings { weight_min: Some(2), weight_max: Some(4), suffix_count: 3, ..settings() };
    assert_eq!(cross_loop_mode(&s), Ok(CrossLoopMode::Scan { weight_min: 2, weight_max: 4 }));
    let s = CrossLoopSettings { weight_max: Some(4), ..settings() };
    assert_eq!(cross_loop_mode(&s), Err("missing --weight-min <n>".to_string()));
    let s = CrossLoopSettings { weight_min: Some(4), ..settings() };
    assert_eq!(cross_loop_mode(&s), Err("missing --weight-max <n>".to_string()));
}

#[test]
fn suffixes_keep_first_occurrences() {
    let ids = vec![vec![0, 1], vec![1], vec![0, 1], vec![], vec![1]];
    assert_eq!(dedup_suffixes(&ids), vec![0, 1, 3]);
}

#[test]
fn error_texts_of_field_invert_and_count() {
    assert_eq!(text(Field::new(1).err().expect("refused")), "prime must be >= 2");
    assert!(Field::new(4).is_ok());
    let f = Field::new(7).expect("field");
    let wide = vec![vec![f.reduce_u64(1), f.reduce_u64(2)]];
    assert_eq!(text(invert(&wide, &f).err().expect("not square")), "matrix not square");
    let singular = vec![vec![f.reduce_u64(1), f.reduce_u64(2)], vec![f.reduce_u64(2), f.reduce_u64(4)]];
    assert_eq!(text(invert(&singular, &f).err().expect("singular")), "matrix not invertible");
    assert_eq!(count_words_exact(6, 5).ok(), Some(15625));
    assert_eq!(count_words_exact(3, 0).ok(), Some(0));
    assert_eq!(count_words_exact(0, 7).ok(), Some(1));
    assert_eq!(text(count_words_exact(64, 2).err().expect("overflow")), "holdout word count overflow");
}

#[test]
fn spectral_learn_one_state() {
    let f = Field::new(7).expect("field");
    let hankel = vec![vec![f.reduce_u64(2)]];
    let shifted = vec![vec![vec![f.reduce_u64(6)]]];
    let m = spectral_learn(&hankel, &shifted, &f).expect("model");
    assert_eq!(m.rank, 1);
    assert_eq!(m.alpha, vec![f.reduce_u64(2)]);
    assert_eq!(m.beta, vec![f.reduce_u64(1)]);
    assert_eq!(m.transitions, vec![vec![vec![f.reduce_u64(3)]]]);
    let zero = vec![vec![f.reduce_u64(0)]];
    assert!(spectral_learn(&zero, &shifted, &f).is_err());
}
