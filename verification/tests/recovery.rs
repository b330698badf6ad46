use athanor_app::pointer_publication::IndexCurrentPublicationJournal;
use athanor_app::recovery::{pointer_recovery_step, RecoveryError, RecoveryStep, SnapshotProbe};

#[test]
fn no_journal_needs_no_recovery() {
    assert_eq!(pointer_recovery_step(None, &SnapshotProbe::Absent).unwrap(), RecoveryStep::Nothing);
}

#[test]
fn committed_snapshot_completes_publication() {
    let journal = IndexCurrentPublicationJournal::new("snap_current");
    let probe = SnapshotProbe::Found { identity: Some("snap_current".to_string()) };
    assert_eq!(pointer_recovery_step(Some(&journal), &probe).unwrap(), RecoveryStep::Complete);
}

#[test]
fn uncommitted_snapshot_is_undone() {
    let journal = IndexCurrentPublicationJournal::new("snap_current");
    assert_eq!(pointer_recovery_step(Some(&journal), &SnapshotProbe::Absent).unwrap(), RecoveryStep::Undo);
}

#[test]
fn recovery_fails_closed_on_other_answers() {
    let journal = IndexCurrentPublicationJournal::new("snap_current");
    let other = SnapshotProbe::Found { identity: Some("snap_other".to_string()) };
    assert!(matches!(pointer_recovery_step(Some(&journal), &other), Err(RecoveryError::IdentityMismatch { .. })));
    let failed = SnapshotProbe::Failed { message: "store unavailable".to_string() };
    assert!(matches!(pointer_recovery_step(Some(&journal), &failed), Err(RecoveryError::ProbeFailed { .. })));
    let broken = IndexCurrentPublicationJournal {
        schema: "athanor.index_current_publication.v1".to_string(),
        snapshot: "snap_current".to_string(),
        generation: "gen_other".to_string(),
    };
    let found = SnapshotProbe::Found { identity: Some("snap_current".to_string()) };
    assert!(matches!(pointer_recovery_step(Some(&broken), &found), Err(RecoveryError::InvalidJournal { .. })));
}
