use athanor_app::pointer_publication::{
    check_artifact_identity, ArtifactIdentity, ArtifactIdentityError, IndexCurrentPublicationJournal,
    PointerJournalError, INDEX_CURRENT_PUBLICATION_SCHEMA,
};

#[test]
fn new_pointer_journal_names_the_snapshot_generation() {
    let journal = IndexCurrentPublicationJournal::new("snap_test");
    assert_eq!(journal.schema, INDEX_CURRENT_PUBLICATION_SCHEMA);
    assert_eq!(journal.snapshot, "snap_test");
    assert_eq!(journal.generation, "gen_snap_test");
    assert!(journal.validate().is_ok());
}

#[test]
fn pointer_journal_validation_reports_each_fault() {
    let mut journal = IndexCurrentPublicationJournal::new("snap_test");
    journal.generation = "gen_other".to_string();
    assert_eq!(
        journal.validate().unwrap_err().to_string(),
        "index current publication generation `gen_other` does not match snapshot `snap_test`"
    );
    let blank = IndexCurrentPublicationJournal::new(" \t");
    assert!(matches!(blank.validate(), Err(PointerJournalError::EmptySnapshot)));
    assert_eq!(
        blank.validate().unwrap_err().to_string(),
        "index current publication journal has an empty snapshot identity"
    );
    let mut foreign = IndexCurrentPublicationJournal::new("snap_test");
    foreign.schema = "athanor.other.v1".to_string();
    assert_eq!(
        foreign.validate().unwrap_err().to_string(),
        "unsupported index current publication journal schema `athanor.other.v1`"
    );
}

#[test]
fn pointer_journal_write_is_idempotent_and_refuses_another_pending_move() {
    let journal = IndexCurrentPublicationJournal::new("snap_test");
    assert_eq!(journal.write_decision(None).unwrap(), true);
    let same = IndexCurrentPublicationJournal::new("snap_test");
    assert_eq!(journal.write_decision(Some(&same)).unwrap(), false);
    let other = IndexCurrentPublicationJournal::new("snap_other");
    let error = journal.write_decision(Some(&other)).unwrap_err();
    assert_eq!(error.to_string(), "index current publication for snap_other is still pending");
}

fn identity(schema: Option<&str>, snapshot: Option<&str>, generation: Option<&str>) -> ArtifactIdentity {
    ArtifactIdentity {
        schema: schema.map(str::to_string),
        snapshot: snapshot.map(str::to_string),
        generation: generation.map(str::to_string),
    }
}

#[test]
fn artifact_identity_accepts_the_expected_identity() {
    let found = identity(Some("athanor.index_state.v1"), Some("snap_a"), Some("gen_snap_a"));
    assert!(check_artifact_identity(&found, "athanor.index_state.v1", "snap_a", "gen_snap_a", "legacy index state", "s.json").is_ok());
}

#[test]
fn artifact_identity_reports_the_first_difference() {
    let check = |found: ArtifactIdentity| {
        check_artifact_identity(&found, "athanor.index_state.v1", "snap_a", "gen_snap_a", "legacy index state", "s.json")
            .unwrap_err()
            .to_string()
    };
    assert_eq!(check(identity(None, None, None)), "legacy index state s.json has no schema");
    assert_eq!(
        check(identity(Some("x"), None, None)),
        "legacy index state s.json has schema `x`, expected `athanor.index_state.v1`"
    );
    assert_eq!(
        check(identity(Some("athanor.index_state.v1"), None, Some("gen_b"))),
        "legacy index state s.json has no snapshot identity"
    );
    assert_eq!(
        check(identity(Some("athanor.index_state.v1"), Some("snap_b"), None)),
        "legacy index state s.json identifies snapshot `snap_b`, expected `snap_a`"
    );
    assert_eq!(
        check(identity(Some("athanor.index_state.v1"), Some("snap_a"), None)),
        "legacy index state s.json has no generation identity"
    );
    let error = check_artifact_identity(
        &identity(Some("athanor.index_state.v1"), Some("snap_a"), Some("gen_b")),
        "athanor.index_state.v1",
        "snap_a",
        "gen_snap_a",
        "immutable index state",
        "t.json",
    )
    .unwrap_err();
    assert!(matches!(error, ArtifactIdentityError::GenerationMismatch { .. }));
    assert_eq!(error.to_string(), "immutable index state t.json identifies generation `gen_b`, expected `gen_snap_a`");
}
