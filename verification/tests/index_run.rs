use athanor_app::index_run::{
    elapsed_ms, reuses_previous_snapshot, validation_report_path, validation_result_path, IndexOptions,
    IndexReport, IndexReportMetrics, INDEX_REPORT_METRICS_SCHEMA, VALIDATION_RESULT_SCHEMA,
};

#[test]
fn validation_paths_default_under_current_output() {
    assert_eq!(
        validation_report_path("/repo", None),
        "/repo/.athanor/generated/current/validation-report.json"
    );
    assert_eq!(
        validation_result_path("/repo/", None),
        "/repo/.athanor/generated/current/validation-result.json"
    );
    assert_eq!(validation_report_path("/repo", Some("out/report.json")), "out/report.json");
    assert_eq!(validation_result_path("/repo", Some("out/result.json")), "out/result.json");
}

#[test]
fn unchanged_run_reuses_the_previous_snapshot() {
    assert!(reuses_previous_snapshot(Some("snap_a"), "snap_a", 0, 0));
    assert!(!reuses_previous_snapshot(Some("snap_a"), "snap_a", 1, 0));
    assert!(!reuses_previous_snapshot(Some("snap_a"), "snap_a", 0, 2));
    assert!(!reuses_previous_snapshot(Some("snap_a"), "snap_b", 0, 0));
    assert!(!reuses_previous_snapshot(None, "snap_a", 0, 0));
}

#[test]
fn elapsed_ms_saturates() {
    assert_eq!(elapsed_ms(42), 42);
    assert_eq!(elapsed_ms(u128::from(u64::MAX) + 5), u64::MAX);
}

#[test]
fn index_report_carries_its_metrics() {
    let options = IndexOptions {
        root: "/repo".to_string(),
        validation_report: None,
        validation_result: None,
        validate_only: true,
    };
    let report = IndexReport {
        root: options.root.clone(),
        snapshot: "snap_a".to_string(),
        files_indexed: 3,
        output_dir: "/repo/.athanor/generated/current/jsonl".to_string(),
        changed_files: 1,
        unchanged_files: 2,
        removed_files: 0,
        validation_report: validation_report_path(&options.root, None),
        validation_result: Some(validation_result_path(&options.root, None)),
        validate_only: options.validate_only,
        metrics: IndexReportMetrics {
            schema: INDEX_REPORT_METRICS_SCHEMA.to_string(),
            total_ms: 5,
            read_model_write_ms: 0,
            validation_result_write_ms: 1,
            index_state_write_ms: 0,
        },
    };
    assert_eq!(report.metrics.schema, "athanor.index_report_metrics.v1");
    assert_eq!(VALIDATION_RESULT_SCHEMA, "athanor.validation_result.v1");
    assert!(report.validate_only);
}
