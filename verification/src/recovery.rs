//! Recovery of an interrupted pointer publication: what the canonical store says of the
//! journal's snapshot decides whether the publication is completed or undone. The caller
//! asks the store, performs the step, and clears the journal after it.

use vstd::prelude::*;
use crate::pointer_publication::{
    pointer_journal_refusal, pointer_journal_valid, IndexCurrentPublicationJournal, PointerJournalError,
};
use crate::text::str_eq;

verus! {

/// What the store answered when asked for a journal's exact snapshot.
pub enum SnapshotProbe {
    /// The store holds a committed snapshot there, under `identity`.
    Found { identity: Option<String> },
    /// The store holds no committed snapshot of that identity.
    Absent,
    /// The store could not be asked.
    Failed { message: String },
}

/// What recovery does next.
#[derive(Debug, PartialEq, Eq, Structural)]
pub enum RecoveryStep {
    /// No publication was interrupted.
    Nothing,
    /// The snapshot is committed: publish its generation as current, then clear the journal.
    Complete,
    /// The snapshot never committed: abort it, then clear the journal.
    Undo,
}

/// Why recovery stops.
#[derive(Debug)]
pub enum RecoveryError {
    /// The journal of a committed snapshot does not name one generation consistently.
    InvalidJournal { error: PointerJournalError },
    /// The store returned the snapshot under another identity.
    IdentityMismatch { snapshot: String, identity: Option<String> },
    /// The store could not be asked about the snapshot.
    ProbeFailed { snapshot: String, message: String },
}

/// The store holds the journal's snapshot under exactly that identity.
pub open spec fn probe_matches(probe: SnapshotProbe, snapshot: Seq<char>) -> bool {
    probe matches SnapshotProbe::Found { identity: Some(id) } && id@ == snapshot
}

/// Decides the recovery of the pointer publication that `journal` records, from what the
/// store said of its snapshot. A committed snapshot is completed only under a valid journal
/// and the exact identity; an absent one is undone; any other answer stops recovery.
pub fn pointer_recovery_step(
    journal: Option<&IndexCurrentPublicationJournal>,
    probe: &SnapshotProbe,
) -> (r: Result<RecoveryStep, RecoveryError>)
    ensures
        match journal {
            None => r == Ok::<RecoveryStep, RecoveryError>(RecoveryStep::Nothing),
            Some(j) => match *probe {
                SnapshotProbe::Absent => r == Ok::<RecoveryStep, RecoveryError>(RecoveryStep::Undo),
                SnapshotProbe::Failed { message } => r matches Err(RecoveryError::ProbeFailed { snapshot, message: m })
                    && snapshot@ == j@.1 && m@ == message@,
                SnapshotProbe::Found { identity } => if !probe_matches(*probe, j@.1) {
                    r matches Err(RecoveryError::IdentityMismatch { snapshot, identity: i })
                        && snapshot@ == j@.1 && (i is None <==> identity is None)
                        && (identity is Some ==> i->0@ == identity->0@)
                } else if pointer_journal_valid(j@) {
                    r == Ok::<RecoveryStep, RecoveryError>(RecoveryStep::Complete)
                } else {
                    r matches Err(RecoveryError::InvalidJournal { error }) && pointer_journal_refusal(j@, error)
                },
            },
        },
        r == Ok::<RecoveryStep, RecoveryError>(RecoveryStep::Complete) ==> (journal matches Some(j)
            && probe_matches(*probe, j@.1) && pointer_journal_valid(j@)),
        r == Ok::<RecoveryStep, RecoveryError>(RecoveryStep::Undo) ==> journal is Some && *probe is Absent,
{
    let j = match journal {
        None => {
            return Ok(RecoveryStep::Nothing);
        },
        Some(j) => j,
    };
    match probe {
        SnapshotProbe::Absent => Ok(RecoveryStep::Undo),
        SnapshotProbe::Failed { message } => Err(RecoveryError::ProbeFailed {
            snapshot: j.snapshot.clone(),
            message: message.clone(),
        }),
        SnapshotProbe::Found { identity } => {
            let same = match identity {
                Some(id) => str_eq(id.as_str(), j.snapshot.as_str()),
                None => false,
            };
            if !same {
                let i = match identity {
                    Some(id) => Some(id.clone()),
                    None => None,
                };
                return Err(RecoveryError::IdentityMismatch { snapshot: j.snapshot.clone(), identity: i });
            }
            match j.validate() {
                Ok(()) => Ok(RecoveryStep::Complete),
                Err(error) => Err(RecoveryError::InvalidJournal { error }),
            }
        },
    }
}

} // verus!
