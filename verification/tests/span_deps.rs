use mpl_experiments::rank_scan::Rational;
use mpl_experiments::span_summary::{render_equiv_classes_csv, render_span_deps_md, EquivClass, EquivMember, SpanDepsMdContext};
use mpl_experiments::span_deps::{BasisKey, CoefSet, EsymbSpanDepsConfig, MaskHistogramRow, SpanFamilyFilter, SparseSearchStats};
use mpl_experiments::span_deps::{
    combine_target_mod, combine_target_mod3, id_before, insert_relation, normalize_terms, parse_prefix_suffix_params,
    relation_before, relation_key, render_basis_expansions_csv, render_span_deps_csv, render_span_stats_csv,
    solve_coeffs_mod_p, verify_expansion_mod_p, BasisExpansion, SpanStats, SparseRelation,
};

fn t(c: i32, id: &str) -> (i32, String) {
    (c, id.to_string())
}

fn order() -> Vec<(String, usize)> {
    vec![("b".to_string(), 0), ("a".to_string(), 1), ("c".to_string(), 1)]
}

#[test]
fn prefix_suffix_params() {
    assert_eq!(
        parse_prefix_suffix_params("u=ab, v = cd"),
        Some(("ab".to_string(), "cd".to_string()))
    );
    assert_eq!(parse_prefix_suffix_params("u=ab"), None);
    assert_eq!(parse_prefix_suffix_params("u=ab,x"), None);
}

#[test]
fn combined_targets_mod_p() {
    assert_eq!(combine_target_mod3(&[1, 2], &[3, 4], &[5, 6, 7], 1, -1, 2, 7), vec![1, 3]);
    // sign flips when c == 1
    assert_eq!(combine_target_mod(&[1, 2], &[3, 4], 1, 1, 1, 7), vec![3, 1]);
    assert_eq!(combine_target_mod(&[1, 2], &[3, 4], 1, 1, -1, 7), vec![4, 6]);
}

#[test]
fn expansion_check_and_solve() {
    let basis = vec![vec![1, 0, 2], vec![0, 1, 1]];
    let target = vec![3, 4, 3];
    // 3*b0 + 4*b1 = (3, 4, 10) = (3, 4, 3) mod 7
    assert!(verify_expansion_mod_p(&basis, &[3, 4], &target, 7));
    assert!(!verify_expansion_mod_p(&basis, &[3, 5], &target, 7));
    let x = solve_coeffs_mod_p(&basis, &target, 7).expect("solvable");
    assert_eq!(x, vec![3, 4]);
    assert!(solve_coeffs_mod_p(&basis, &[1, 1, 0], 7).is_none());
    assert_eq!(solve_coeffs_mod_p(&[], &target, 7), Some(vec![]));
}

#[test]
fn id_order_by_map_then_text() {
    let map = order();
    assert!(id_before(&map, "b", "a"));
    assert!(id_before(&map, "a", "c"));
    assert!(!id_before(&map, "c", "a"));
    assert!(id_before(&map, "c", "z"));
    assert!(!id_before(&map, "a", "a"));
}

#[test]
fn normalize_terms_drops_sorts_and_fixes_sign() {
    let map = order();
    let out = normalize_terms(vec![t(2, "a"), t(0, "c"), t(-1, "b")], &map);
    assert_eq!(out, vec![t(1, "b"), t(-2, "a")]);
    let out = normalize_terms(vec![t(0, "a")], &map);
    assert!(out.is_empty());
    assert_eq!(relation_key(&normalize_terms(vec![t(1, "c"), t(-2, "a")], &map)), "2*a;-1*c");
}

#[test]
fn insert_relation_keeps_first_of_a_key() {
    let map = order();
    let mut rels: Vec<SparseRelation> = Vec::new();
    insert_relation(&mut rels, "fam", vec![t(1, "a"), t(-1, "b")], &map);
    assert_eq!(rels.len(), 1);
    assert_eq!(rels[0].terms, vec![t(1, "b"), t(-1, "a")]);
    insert_relation(&mut rels, "other", vec![t(-1, "a"), t(1, "b")], &map);
    assert_eq!(rels.len(), 1);
    insert_relation(&mut rels, "fam", vec![t(0, "a")], &map);
    assert_eq!(rels.len(), 1);
    insert_relation(&mut rels, "fam", vec![t(2, "c")], &map);
    assert_eq!(rels.len(), 2);
    assert_eq!(rels[1].family, "fam");
}

#[test]
fn relation_order() {
    let a = SparseRelation { family: "f".to_string(), terms: vec![t(1, "a"), t(1, "b")] };
    let b = SparseRelation { family: "f".to_string(), terms: vec![t(1, "a"), t(1, "b"), t(1, "c")] };
    let c = SparseRelation { family: "e".to_string(), terms: vec![t(1, "z"), t(1, "y"), t(1, "x")] };
    assert!(relation_before(&a, &b));
    assert!(relation_before(&c, &a));
    assert!(!relation_before(&a, &a));
}

#[test]
fn span_tables() {
    let stats = vec![
        SpanStats { family: "suffix".to_string(), total: 4, nonzero: 3, trivial: 1, rank: 2, nullity: 1 },
        SpanStats { family: "prefix".to_string(), total: 5, nonzero: 5, trivial: 0, rank: 5, nullity: 0 },
    ];
    assert_eq!(
        render_span_stats_csv(&stats),
        "family,total,nonzero,trivial,rank,nullity\nprefix,5,5,0,5,0\nsuffix,4,3,1,2,1\n"
    );
    let rels = vec![SparseRelation {
        family: "p".to_string(),
        terms: vec![t(1, "a"), t(-2, "b"), t(1, "c"), t(1, "d"), t(1, "e")],
    }];
    assert_eq!(
        render_span_deps_csv(&rels),
        "family,support,term1,term2,term3,term4\np,5,1*a,-2*b,1*c,1*d\n"
    );
    let exps = vec![BasisExpansion { family: "p".to_string(), key: "k".to_string(), prime: 7, coeffs: vec![1, -2, 3] }];
    assert_eq!(render_basis_expansions_csv(&exps), "family,key,prime,coeffs\np,k,7,1;-2;3\n");
}

fn sample_classes() -> Vec<EquivClass> {
    vec![
        EquivClass {
            family: "prefix".to_string(),
            representative: "a".to_string(),
            members: vec![
                EquivMember { id: "a".to_string(), ratio: Rational { numer: 1, denom: 1 } },
                EquivMember { id: "b".to_string(), ratio: Rational { numer: -1, denom: 2 } },
            ],
        },
        EquivClass {
            family: "suffix".to_string(),
            representative: "c".to_string(),
            members: vec![EquivMember { id: "c".to_string(), ratio: Rational { numer: 1, denom: 1 } }],
        },
    ]
}

#[test]
fn equiv_classes_csv_lists_members() {
    let csv = render_equiv_classes_csv(&sample_classes());
    assert_eq!(csv, "family,representative,member,ratio\nprefix,a,a,1\nprefix,a,b,-1/2\nsuffix,c,c,1\n");
}

#[test]
fn span_deps_summary_markdown() {
    let cfg = EsymbSpanDepsConfig {
        input: "obs.csv".to_string(),
        out_dir: "out".to_string(),
        family: SpanFamilyFilter::All,
        support_max: 3,
        coef_set: CoefSet::Pm1,
        top_k: 1,
        export_forbidden: false,
        export_equiv_classes: false,
    };
    let stats = vec![
        SpanStats { family: "suffix".to_string(), total: 2, nonzero: 1, trivial: 1, rank: 1, nullity: 0 },
        SpanStats { family: "prefix".to_string(), total: 2, nonzero: 2, trivial: 0, rank: 1, nullity: 1 },
    ];
    let classes = sample_classes();
    let relations = vec![SparseRelation { family: "prefix".to_string(), terms: vec![t(1, "a"), t(-2, "b")] }];
    let search = vec![SparseSearchStats { family: "prefix".to_string(), attempts: 3, hits_mod_p: 1, verified: 1 }];
    let keys = vec![BasisKey { family: "prefix".to_string(), key: "a".to_string(), index: 0 }];
    let masks: Vec<MaskHistogramRow> = Vec::new();
    let ctx = SpanDepsMdContext {
        loops: &[1, 2],
        cfg: &cfg,
        stats: &stats,
        classes: &classes,
        relations: &relations,
        search_stats: &search,
        basis_keys: &keys,
        mask_histogram: &masks,
        total_observables: 4,
        trivial_observables: 1,
    };
    let densities = vec!["0.500000".to_string(), "1.000000".to_string()];
    let md = render_span_deps_md(&ctx, &densities, "0.750000");
    let expected = [
        "# esymb_span_deps\n\nloops = [1, 2]\n\nfamily = all\n\nsupport_max = 3\n\ncoef_set = pm1\n\ntop_k = 1\n\n",
        "observables_total = 4\n\nobservables_trivial = 1\n\n",
        "## family_stats\n\n| family | total | nonzero | trivial | rank | nullity |\n| --- | --- | --- | --- | --- | --- |\n",
        "| prefix | 2 | 2 | 0 | 1 | 1 |\n| suffix | 2 | 1 | 1 | 1 | 0 |\n\n",
        "## density\n\noverall = 3/4 (0.750000)\n\n- prefix: 2/2 (1.000000)\n- suffix: 1/2 (0.500000)\n\n",
        "## top_equiv_classes\n\n- family=prefix rep=a size=2 members=[a:1, b:-1/2]\n\n",
        "## sample_relations\n\n- prefix: 1*a + -2*b = 0\n",
        "\n## basis_keys\n\ncount = 1\n\n- prefix: a\n\n",
        "## mask_histogram_summary\n\n_none_\n\n",
        "## sparse_search_stats\n\n- family=prefix attempts=3 hits_mod_p=1 verified=1\n",
    ]
    .concat();
    assert_eq!(md, expected);
}
