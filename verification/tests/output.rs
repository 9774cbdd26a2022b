use mpl_experiments::output::{
    BasisStats,
    escape_csv_field, escape_json_string, render_count_only, render_skeleton2_metrics, render_topology_metrics,
    vars_csv, CountReport, CountSummary, CsvWriter, ErrorCode, Status, WeightSummary,
};
use mpl_experiments::topology::{Skeleton2Metrics, TopologyMetrics};

#[test]
fn csv_fields_quote_only_when_needed() {
    assert_eq!(escape_csv_field("plain"), "plain");
    assert_eq!(escape_csv_field("a,b"), "\"a,b\"");
    assert_eq!(escape_csv_field("say \"hi\""), "\"say \"\"hi\"\"\"");
    assert_eq!(escape_csv_field("two\nlines"), "\"two\nlines\"");
    assert_eq!(escape_csv_field(""), "");
}

#[test]
fn csv_writer_builds_records() {
    let mut w = CsvWriter::new();
    w.push_record(&vec!["a".to_string(), "b,c".to_string()]);
    w.push_raw("raw\n");
    w.push_record(&vec!["1".to_string()]);
    assert_eq!(w.into_string(), "a,\"b,c\"\nraw\n1\n");
}

#[test]
fn vars_joined_by_commas() {
    assert_eq!(vars_csv(&[]), "");
    assert_eq!(vars_csv(&["x".to_string(), "y".to_string()]), "x,y");
}

#[test]
fn json_strings_escaped() {
    assert_eq!(escape_json_string("a\"b\\c"), "a\\\"b\\\\c");
    assert_eq!(escape_json_string("line\nfeed\ttab\r"), "line\\nfeed\\ttab\\r");
    assert_eq!(escape_json_string("\u{1}\u{1f}"), "\\u0001\\u001f");
    assert_eq!(escape_json_string("ümlaut"), "ümlaut");
}

#[test]
fn count_only_table() {
    let report = CountReport {
        name: "demo".to_string(),
        weight_min: 2,
        weight_max: 3,
        summaries: vec![
            CountSummary { weight: 2, n_words_allowed: 16, status: Status::Done, error_code: None },
            CountSummary {
                weight: 3,
                n_words_allowed: 0,
                status: Status::Failed,
                error_code: Some(ErrorCode::FuelExhausted),
            },
        ],
    };
    assert_eq!(
        render_count_only(&report),
        "weight,n_words_allowed,status,error_code,error\n2,16,ok,,\n3,0,err,FuelExhausted,FuelExhausted\n"
    );
}

fn summary() -> WeightSummary {
    WeightSummary {
        weight: 4,
        stats: BasisStats {
            dim: 0,
            rank: 0,
            ncols: 0,
            rows_attempted: 0,
            rows_inserted: 0,
            samples_used: 0,
            envs_total: 0,
            constraints_insufficient_samples: 0,
        },
        n_words_allowed: 10,
        n_active_words: 6,
        topology: TopologyMetrics {
            n_vertices: 3,
            n_edges: 4,
            n_active_words: 6,
            weakly_connected_components: 1,
            strongly_connected_components: 2,
            max_out_degree: 2,
            density_num: 4,
            density_den: 9,
            avg_out_degree_num: 4,
            avg_out_degree_den: 3,
        },
        skeleton2: Skeleton2Metrics {
            n_vertices: 3,
            n_edges_undirected: 2,
            triangles: 0,
            clustering_num: 0,
            clustering_den: 1,
            beta1_est: -1,
            triplets_supported_by_triangles_num: 0,
            triplets_supported_by_triangles_den: 5,
        },
        status: Status::Done,
        error_code: None,
    }
}

#[test]
fn topology_table() {
    let text = render_topology_metrics(&[summary()]);
    assert_eq!(
        text,
        "weight,n_vertices,n_edges,n_active_words,weakly_connected_components,strongly_connected_components,density_num,density_den,max_out_degree,avg_out_degree_num,avg_out_degree_den,status,error_code,error\n4,3,4,6,1,2,4,9,2,4,3,ok,,\n"
    );
}

#[test]
fn skeleton_table() {
    let mut s = summary();
    s.status = Status::Failed;
    s.error_code = Some(ErrorCode::Eval);
    let text = render_skeleton2_metrics(&[s]);
    assert_eq!(
        text,
        "weight,status,error_code,error,n_vertices,n_edges_undirected,triangles,clustering_num,clustering_den,beta1_est,triplets_supported_by_triangles_num,triplets_supported_by_triangles_den\n4,err,Eval,Eval,3,2,0,0,1,-1,0,5\n"
    );
}
