use faasrail::allocation::allocate_counts;
use faasrail::trace::{
    TraceFileError,
    bench_mixture, counts_as_ok, expand_counts, filter_rows, first_minute_weights, invocation_url, minute_invocations,
    minute_target, parse_trace, parse_trace_record, resolve_action, shuffled_minute_invocations, trace_record, TraceError, TraceRecord,
    TraceRow,
};
use serde_json::Value;

#[test]
fn allocate_counts_breaks_ties_by_row_order() {
    assert_eq!(allocate_counts(10, &vec![1, 1, 1]), vec![4, 3, 3]);
}

#[test]
fn allocate_counts_gives_leftover_to_largest_remainders() {
    // exact shares 3.5, 2.1, 1.4: whole parts 3, 2, 1, one left over for the first row
    assert_eq!(allocate_counts(7, &vec![5, 3, 2]), vec![4, 2, 1]);
}

#[test]
fn allocate_counts_zero_weight_row_gets_nothing() {
    assert_eq!(allocate_counts(300, &vec![0, 10]), vec![0, 300]);
}

#[test]
fn allocate_counts_ignores_common_factor() {
    let weights = vec![3, 1, 4, 1, 5];
    let scaled: Vec<u32> = weights.iter().map(|w| w * 7).collect();
    for n in [0usize, 1, 7, 13, 100, 299] {
        assert_eq!(allocate_counts(n, &scaled), allocate_counts(n, &weights));
    }
}

#[test]
fn allocate_counts_sums_to_n() {
    let weights = vec![7, 13, 1, 0, 29, 4];
    for n in [0usize, 1, 5, 59, 60, 61, 300, 12345] {
        let counts = allocate_counts(n, &weights);
        assert_eq!(counts.len(), weights.len());
        assert_eq!(counts.iter().sum::<usize>(), n);
    }
}

#[test]
fn expand_counts_repeats_rows_in_order() {
    assert_eq!(expand_counts(&vec![2, 0, 1]), vec![0, 0, 2]);
}

#[test]
fn minute_invocations_has_n_entries() {
    let v = minute_invocations(300, &vec![3, 1]);
    assert_eq!(v.len(), 300);
    assert_eq!(v.iter().filter(|&&i| i == 0).count(), 225);
    assert_eq!(v.iter().filter(|&&i| i == 1).count(), 75);
}

#[test]
fn minute_target_ramps_and_saturates() {
    assert_eq!(minute_target(5, 1, 0), (5, 300));
    assert_eq!(minute_target(5, 2, 3), (11, 660));
    assert_eq!(minute_target(u32::MAX - 1, 5, 1), (u32::MAX, u32::MAX as usize * 60));
}

#[test]
fn resolve_action_matches_prefix_and_dash() {
    assert_eq!(resolve_action("disk-rand-123"), Some(("disk-rand", "/guest/bench_disk_rand")));
    assert_eq!(resolve_action("disk-seq-9"), Some(("disk-seq", "/guest/bench_disk_seq")));
    assert_eq!(resolve_action("json-small"), Some(("json", "/guest/bench_json")));
    assert_eq!(resolve_action("gzip-"), Some(("gzip", "/guest/bench_gzip")));
    assert_eq!(resolve_action("aes-1"), Some(("aes", "/guest/bench_aes")));
    assert_eq!(resolve_action("jsonx"), None);
    assert_eq!(resolve_action("aes"), None);
    assert_eq!(resolve_action("unknown-1"), None);
}

#[test]
fn invocation_url_splits_namespace_and_action() {
    assert_eq!(
        invocation_url("https://h:31001", "/guest/bench_json").as_deref(),
        Some("https://h:31001/api/v1/namespaces/guest/actions/bench_json")
    );
    assert_eq!(
        invocation_url("https://h", "//a/b/c").as_deref(),
        Some("https://h/api/v1/namespaces/a/actions/b/c")
    );
    assert_eq!(invocation_url("https://h", "/noslash"), None);
}

#[test]
fn counts_as_ok_accepts_2xx() {
    assert!(counts_as_ok(200));
    assert!(counts_as_ok(202));
    assert!(counts_as_ok(299));
    assert!(!counts_as_ok(300));
    assert!(!counts_as_ok(404));
    assert!(!counts_as_ok(199));
}

fn row(bench_type: &str, rpm: Vec<u32>) -> TraceRow {
    TraceRow {
        bench_type: bench_type.to_string(),
        action_path: format!("/guest/{bench_type}"),
        payload: Value::Null,
        rpm,
    }
}

fn summary(rows: &[TraceRow]) -> Vec<(String, u32)> {
    rows.iter().map(|r| (r.bench_type.clone(), r.rpm.iter().sum())).collect()
}

#[test]
fn filter_rows_keeps_busiest_per_type_in_type_order() {
    let rows = vec![
        row("json", vec![1, 1]),
        row("aes", vec![5]),
        row("json", vec![9]),
        row("aes", vec![2, 2]),
        row("json", vec![2]),
        row("aes", vec![1]),
        row("chameleon", vec![0]),
    ];
    let out = filter_rows(rows, 2);
    assert_eq!(
        summary(&out),
        vec![
            ("aes".to_string(), 5),
            ("aes".to_string(), 4),
            ("chameleon".to_string(), 0),
            ("json".to_string(), 9),
            ("json".to_string(), 2),
        ]
    );
    // among the json rows with total 2, the earlier one (rpm [1, 1]) is kept
    assert_eq!(out[4].rpm, vec![1, 1]);
}

#[test]
fn filter_rows_zero_keeps_nothing() {
    let rows = vec![row("aes", vec![1]), row("json", vec![2])];
    assert!(filter_rows(rows, 0).is_empty());
}

#[test]
fn filter_rows_keeps_min_of_limit_and_type_count() {
    let rows = vec![
        row("gzip", vec![3]),
        row("float", vec![1]),
        row("gzip", vec![7]),
        row("gzip", vec![5]),
        row("float", vec![4]),
    ];
    let out = filter_rows(rows, 10);
    let count = |t: &str| out.iter().filter(|r| r.bench_type == t).count();
    assert_eq!(count("gzip"), 3);
    assert_eq!(count("float"), 2);
    assert_eq!(
        summary(&out),
        vec![
            ("float".to_string(), 4),
            ("float".to_string(), 1),
            ("gzip".to_string(), 7),
            ("gzip".to_string(), 5),
            ("gzip".to_string(), 3),
        ]
    );
}

#[test]
fn bench_mixture_sums_per_type_in_name_order() {
    let rows = vec![row("json", vec![3]), row("aes", vec![1]), row("json", vec![4])];
    let weights = vec![3, 1, 4];
    assert_eq!(
        bench_mixture(&rows, &weights),
        vec![("aes".to_string(), 1), ("json".to_string(), 7)]
    );
}

#[test]
fn bench_mixture_weights_add_up_to_first_minute() {
    let rows = vec![
        row("gzip", vec![2]),
        row("float", vec![0]),
        row("gzip", vec![5]),
        row("aes", vec![9]),
        row("float", vec![6]),
    ];
    let weights = vec![2, 0, 5, 9, 6];
    let mix = bench_mixture(&rows, &weights);
    assert_eq!(
        mix,
        vec![("aes".to_string(), 9), ("float".to_string(), 6), ("gzip".to_string(), 7)]
    );
    assert_eq!(mix.iter().map(|(_, w)| *w).sum::<u64>(), 22);
    // only the rows that have a weight are covered
    assert_eq!(bench_mixture(&rows, &weights[..2].to_vec()), vec![
        ("float".to_string(), 0),
        ("gzip".to_string(), 2),
    ]);
}

#[test]
fn first_minute_weights_take_first_column() {
    let rows = vec![row("aes", vec![4, 9]), row("json", vec![]), row("gzip", vec![0, 3])];
    assert_eq!(first_minute_weights(&rows), vec![4, 0, 0]);
    assert!(first_minute_weights(&Vec::new()).is_empty());
}

#[test]
fn shuffled_minute_invocations_keep_the_plan() {
    let weights = vec![3, 0, 5, 2];
    let mut plan = minute_invocations(47, &weights);
    let mut shuffled = shuffled_minute_invocations(47, &weights);
    assert_eq!(shuffled.len(), 47);
    plan.sort();
    shuffled.sort();
    assert_eq!(shuffled, plan);
    assert!(!shuffled.contains(&1));
}

fn fields(items: &[&str]) -> Vec<String> {
    items.iter().map(|s| s.to_string()).collect()
}

#[test]
fn parse_trace_record_reads_row() {
    let rec = fields(&[
        "fn-1",
        r#"{"bench":"json-small","payload":"{\"json_string\":\"[1]\"}"}"#,
        "12",
        "x",
        "+3",
    ]);
    let row = match parse_trace_record(&rec).unwrap() {
        TraceRecord::Row(row) => row,
        TraceRecord::UnknownBench(name) => panic!("unexpected unknown benchmark {name}"),
    };
    assert_eq!(row.bench_type, "json");
    assert_eq!(row.action_path, "/guest/bench_json");
    assert_eq!(row.rpm, vec![12, 0, 3]);
    assert_eq!(row.payload["json_string"], Value::String("[1]".to_string()));
}

#[test]
fn parse_trace_record_skips_unknown_benchmark() {
    let rec = fields(&["fn-1", r#"{"bench":"other-1","payload":"{}"}"#, "1"]);
    match parse_trace_record(&rec).unwrap() {
        TraceRecord::UnknownBench(name) => assert_eq!(name, "other-1"),
        TraceRecord::Row(_) => panic!("expected an unknown benchmark"),
    }
}

#[test]
fn trace_record_resolves_and_reads_minutes() {
    let rec = fields(&["fn-2", "ignored", "7", "", "4294967295", "4294967296"]);
    match trace_record("disk-seq-large", Value::Bool(true), &rec) {
        TraceRecord::Row(row) => {
            assert_eq!(row.bench_type, "disk-seq");
            assert_eq!(row.action_path, "/guest/bench_disk_seq");
            assert_eq!(row.payload, Value::Bool(true));
            assert_eq!(row.rpm, vec![7, 0, 4294967295, 0]);
        }
        TraceRecord::UnknownBench(name) => panic!("unexpected unknown benchmark {name}"),
    }
    match trace_record("disk-seq", Value::Null, &rec) {
        TraceRecord::UnknownBench(name) => assert_eq!(name, "disk-seq"),
        TraceRecord::Row(_) => panic!("a name without a dash after the prefix resolves to nothing"),
    }
}

#[test]
fn parse_trace_record_reports_errors() {
    assert!(matches!(
        parse_trace_record(&fields(&["f", "not json"])),
        Err(TraceError::BadRecordJson(_))
    ));
    assert!(matches!(
        parse_trace_record(&fields(&["f", r#"{"payload":"{}"}"#])),
        Err(TraceError::MissingBench)
    ));
    assert!(matches!(
        parse_trace_record(&fields(&["f", r#"{"bench":"aes-1"}"#])),
        Err(TraceError::MissingPayload)
    ));
    assert!(matches!(
        parse_trace_record(&fields(&["f", r#"{"bench":"aes-1","payload":"{"}"#])),
        Err(TraceError::BadPayloadJson(_))
    ));
}

#[test]
fn parse_trace_reads_rows_and_skips_unknown() {
    let lines = [
        "function,mapped_wreq,m0,m1",
        r#"f1,"{""bench"":""aes-1"",""payload"":""{}""}",5,6"#,
        r#"f2,"{""bench"":""nope-1"",""payload"":""{}""}",1"#,
        r#"f3,"{""bench"":""gzip-big"",""payload"":""[1]""}",2"#,
    ];
    let csv = lines.join("\n");
    let (rows, unknown) = parse_trace(csv.as_bytes()).unwrap();
    assert_eq!(rows.len(), 2);
    assert_eq!(rows[0].bench_type, "aes");
    assert_eq!(rows[0].rpm, vec![5, 6]);
    assert_eq!(rows[0].payload, Value::Object(serde_json::Map::new()));
    assert_eq!(rows[1].action_path, "/guest/bench_gzip");
    assert_eq!(rows[1].payload, Value::Array(vec![Value::from(1u64)]));
    assert_eq!(rows[1].rpm, vec![2]);
    assert_eq!(unknown, vec!["nope-1".to_string()]);
}

#[test]
fn parse_trace_reports_first_bad_record() {
    let csv = "h1,h2\nonly-one-field\nf,{}\n";
    match parse_trace(csv.as_bytes()) {
        Err(TraceFileError::Record { index, error }) => {
            assert_eq!(index, 0);
            assert!(matches!(error, TraceError::ShortRecord));
        }
        other => panic!("unexpected {:?}", other.map(|(r, u)| (r.len(), u))),
    }
    match parse_trace("h\nf,{}\n".as_bytes()) {
        Err(TraceFileError::Record { index: 0, error: TraceError::MissingBench }) => {}
        other => panic!("unexpected {:?}", other.map(|(r, u)| (r.len(), u))),
    }
    assert!(matches!(parse_trace(&[0x61, 0x0a, 0xff, 0xfe, 0x0a]), Err(TraceFileError::Csv(_))));
    let (rows, unknown) = parse_trace(b"only,header\n").unwrap();
    assert!(rows.is_empty() && unknown.is_empty());
}

#[test]
fn parse_trace_record_rejects_short_and_non_string_members() {
    assert!(matches!(parse_trace_record(&fields(&["f"])), Err(TraceError::ShortRecord)));
    assert!(matches!(
        parse_trace_record(&fields(&["f", r#"{"bench":3,"payload":"{}"}"#])),
        Err(TraceError::MissingBench)
    ));
    assert!(matches!(
        parse_trace_record(&fields(&["f", r#"{"bench":"aes-1","payload":{}}"#])),
        Err(TraceError::MissingPayload)
    ));
    assert!(matches!(parse_trace_record(&fields(&["f", "[1]"])), Err(TraceError::MissingBench)));
}
