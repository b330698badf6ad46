use athanor_app::publication::{
    expected_index_state, expected_read_model, validate_publication_id, IndexCurrent, IndexPublicationJournal,
    JournalWire, INDEX_CURRENT_SCHEMA, INDEX_PUBLICATION_JOURNAL_SCHEMA_V1, INDEX_PUBLICATION_JOURNAL_SCHEMA_V2,
    INDEX_PUBLICATION_JOURNAL_SCHEMA_V3,
};

fn v3_fields(journal: &IndexPublicationJournal) -> (String, String, String) {
    match journal.to_wire() {
        JournalWire::V3 { schema, prepared, generation, .. } => (schema, prepared, generation),
        _ => panic!("a journal is written in its current version"),
    }
}

#[test]
fn v3_round_trip_preserves_generation_and_snapshot_identity() {
    let journal = IndexPublicationJournal::with_id("project", "snap_test_0003", "publication-3");

    let (schema, prepared, generation) = v3_fields(&journal);
    assert_eq!(schema, INDEX_PUBLICATION_JOURNAL_SCHEMA_V3);
    assert_eq!(prepared, "snap_test_0003");
    assert_eq!(generation, "gen_snap_test_0003");

    let decoded = IndexPublicationJournal::from_wire(journal.to_wire()).ok().unwrap();
    assert_eq!(decoded.snapshot(), journal.snapshot());
    assert_eq!(decoded.generation(), journal.generation());
    assert_eq!(decoded.id(), journal.id());
    assert_eq!(decoded.read_model(), journal.read_model());
    assert_eq!(decoded.index_state(), journal.index_state());
    assert_eq!(decoded.snapshot(), "snap_test_0003");
    assert_eq!(decoded.generation(), "gen_snap_test_0003");
    assert!(decoded.requires_generation_identity());
}

#[test]
fn v2_is_normalized_to_generation_aware_v3() {
    let decoded = IndexPublicationJournal::from_wire(JournalWire::V2 {
        schema: INDEX_PUBLICATION_JOURNAL_SCHEMA_V2.to_string(),
        prepared: "snap_test_0002".to_string(),
        id: "publication-2".to_string(),
        read_model: "project/.athanor/generated/current/jsonl".to_string(),
        index_state: "project/.athanor/state/index-state.json".to_string(),
    })
    .ok()
    .unwrap();

    assert_eq!(decoded.snapshot(), "snap_test_0002");
    assert_eq!(decoded.generation(), "gen_snap_test_0002");
    assert!(!decoded.requires_generation_identity());
    let (schema, prepared, generation) = v3_fields(&decoded);
    assert_eq!(schema, INDEX_PUBLICATION_JOURNAL_SCHEMA_V3);
    assert_eq!(prepared, "snap_test_0002");
    assert_eq!(generation, "gen_snap_test_0002");
}

#[test]
fn v1_is_normalized_to_generation_aware_v3() {
    let decoded = IndexPublicationJournal::from_wire(JournalWire::V1 {
        schema: INDEX_PUBLICATION_JOURNAL_SCHEMA_V1.to_string(),
        snapshot: "snap_test_0001".to_string(),
        id: "publication-1".to_string(),
        read_model: "project/.athanor/generated/current/jsonl".to_string(),
        index_state: "project/.athanor/state/index-state.json".to_string(),
    })
    .ok()
    .unwrap();

    assert_eq!(decoded.snapshot(), "snap_test_0001");
    assert_eq!(decoded.generation(), "gen_snap_test_0001");
    assert!(!decoded.requires_generation_identity());
    let (schema, prepared, generation) = v3_fields(&decoded);
    assert_eq!(schema, INDEX_PUBLICATION_JOURNAL_SCHEMA_V3);
    assert_eq!(prepared, "snap_test_0001");
    assert_eq!(generation, "gen_snap_test_0001");
}

#[test]
fn journal_rejects_unsupported_schema_and_bad_ids() {
    let refused = IndexPublicationJournal::from_wire(JournalWire::V1 {
        schema: "athanor.index_publication.v9".to_string(),
        snapshot: "snap".to_string(),
        id: "publication-1".to_string(),
        read_model: "r".to_string(),
        index_state: "s".to_string(),
    });
    assert!(refused.is_err());
    assert!(validate_publication_id("publication-1").is_ok());
    assert!(validate_publication_id("").is_err());
    assert!(validate_publication_id("../escape").is_err());
}

#[test]
fn fresh_journal_validates_for_its_root() {
    let journal = IndexPublicationJournal::with_id("project", "snap_1", "publication-1");
    assert!(journal.validate_for_root("project").is_ok());
    assert_eq!(journal.read_model(), &expected_read_model("project"));
    assert_eq!(journal.index_state(), &expected_index_state("project"));
    assert!(journal.validate_for_root("elsewhere").is_err());
}

#[test]
fn pointer_paths_are_deterministic_and_generation_scoped() {
    let current = IndexCurrent::for_snapshot("snap_test");

    assert_eq!(current.generation().as_str(), "gen_snap_test");
    assert_eq!(current.read_model(), ".athanor/generated/index-generations/gen_snap_test/jsonl");
    assert_eq!(current.index_state(), ".athanor/state/index-generations/gen_snap_test/index-state.json");
    assert!(current.validate().is_ok());
}

#[test]
fn pointer_rejects_foreign_generation_and_paths() {
    let base = IndexCurrent::for_snapshot("snap_test");
    let current = IndexCurrent::from_parts(
        base.schema().clone(),
        "gen_foreign".to_string(),
        base.snapshot().clone(),
        base.read_model().clone(),
        base.index_state().clone(),
    );
    assert!(current.validate().err().unwrap().to_string().contains("does not match"));

    let current = IndexCurrent::from_parts(
        base.schema().clone(),
        base.generation().clone(),
        base.snapshot().clone(),
        "../../foreign".to_string(),
        base.index_state().clone(),
    );
    assert!(current.validate().err().unwrap().to_string().contains("read-model path"));
}

#[test]
fn pointer_round_trip_is_fail_closed() {
    let current = IndexCurrent::for_snapshot("snap_test");
    let decoded = IndexCurrent::from_parts(
        current.schema().clone(),
        current.generation().clone(),
        current.snapshot().clone(),
        current.read_model().clone(),
        current.index_state().clone(),
    );
    assert_eq!(decoded.schema(), INDEX_CURRENT_SCHEMA);
    assert_eq!(decoded.schema(), current.schema());
    assert_eq!(decoded.generation(), current.generation());
    assert_eq!(decoded.snapshot(), current.snapshot());
    assert_eq!(decoded.read_model(), current.read_model());
    assert_eq!(decoded.index_state(), current.index_state());
    assert!(decoded.validate().is_ok());
}
