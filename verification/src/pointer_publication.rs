//! Moving the current generation pointer: the journal that records a pending move, and
//! the identity checks on the artifacts that a move copies.

use vstd::prelude::*;
use crate::index_state::{generation_for, generation_id_for};
use crate::publication::{blank, is_blank};
use crate::text::str_eq;

verus! {

pub const INDEX_CURRENT_PUBLICATION_SCHEMA: &'static str = "athanor.index_current_publication.v1";

/// The read model of a project that has no generation pointer yet, relative to its root.
pub const LEGACY_READ_MODEL_PATH: &'static str = ".athanor/generated/current/jsonl";

/// The index state of a project that has no generation pointer yet, relative to its root.
pub const LEGACY_INDEX_STATE_PATH: &'static str = ".athanor/state/index-state.json";

/// The record of a pending move of the current pointer to a snapshot's generation.
pub struct IndexCurrentPublicationJournal {
    pub schema: String,
    pub snapshot: String,
    pub generation: String,
}

/// What a pointer journal says: its schema, snapshot and generation.
pub type PointerJournalView = (Seq<char>, Seq<char>, Seq<char>);

impl View for IndexCurrentPublicationJournal {
    type V = PointerJournalView;

    open spec fn view(&self) -> PointerJournalView {
        (self.schema@, self.snapshot@, self.generation@)
    }
}

/// Why a pointer journal was refused or could not be written.
#[derive(Debug)]
pub enum PointerJournalError {
    UnsupportedSchema { schema: String },
    EmptySnapshot,
    GenerationMismatch { generation: String, snapshot: String },
    Pending { snapshot: String },
}

/// The message of a pointer journal error.
pub open spec fn pointer_journal_error_message(e: PointerJournalError) -> Seq<char> {
    match e {
        PointerJournalError::UnsupportedSchema { schema } =>
            "unsupported index current publication journal schema `"@ + schema@ + "`"@,
        PointerJournalError::EmptySnapshot => "index current publication journal has an empty snapshot identity"@,
        PointerJournalError::GenerationMismatch { generation, snapshot } =>
            "index current publication generation `"@ + generation@ + "` does not match snapshot `"@ + snapshot@ + "`"@,
        PointerJournalError::Pending { snapshot } => "index current publication for "@ + snapshot@ + " is still pending"@,
    }
}

impl PointerJournalError {
    /// The error's message.
    pub fn to_string(&self) -> (r: String)
        ensures
            r@ == pointer_journal_error_message(*self),
    {
        let mut r;
        match self {
            PointerJournalError::UnsupportedSchema { schema } => {
                r = String::from_str("unsupported index current publication journal schema `");
                r.append(schema.as_str());
                r.append("`");
            },
            PointerJournalError::EmptySnapshot => {
                r = String::from_str("index current publication journal has an empty snapshot identity");
            },
            PointerJournalError::GenerationMismatch { generation, snapshot } => {
                r = String::from_str("index current publication generation `");
                r.append(generation.as_str());
                r.append("` does not match snapshot `");
                r.append(snapshot.as_str());
                r.append("`");
            },
            PointerJournalError::Pending { snapshot } => {
                r = String::from_str("index current publication for ");
                r.append(snapshot.as_str());
                r.append(" is still pending");
            },
        }
        r
    }
}

/// A pointer journal that a move may follow: it has this schema, a snapshot that is not
/// blank, and that snapshot's generation.
pub open spec fn pointer_journal_valid(j: PointerJournalView) -> bool {
    &&& j.0 == INDEX_CURRENT_PUBLICATION_SCHEMA@
    &&& !blank(j.1)
    &&& j.2 == generation_for(j.1)
}

/// The error that validation gives a journal that is not valid.
pub open spec fn pointer_journal_refusal(j: PointerJournalView, e: PointerJournalError) -> bool {
    if j.0 != INDEX_CURRENT_PUBLICATION_SCHEMA@ {
        e matches PointerJournalError::UnsupportedSchema { schema } && schema@ == j.0
    } else if blank(j.1) {
        e is EmptySnapshot
    } else {
        e matches PointerJournalError::GenerationMismatch { generation, snapshot } && generation@ == j.2 && snapshot@ == j.1
    }
}

impl IndexCurrentPublicationJournal {
    /// The journal of a move to the generation of `snapshot`.
    pub fn new(snapshot: &str) -> (r: Self)
        ensures
            r@ == (INDEX_CURRENT_PUBLICATION_SCHEMA@, snapshot@, generation_for(snapshot@)),
    {
        IndexCurrentPublicationJournal {
            schema: String::from_str(INDEX_CURRENT_PUBLICATION_SCHEMA),
            snapshot: String::from_str(snapshot),
            generation: generation_id_for(snapshot),
        }
    }

    /// Checks the schema, the snapshot and that the generation is the snapshot's.
    pub fn validate(&self) -> (r: Result<(), PointerJournalError>)
        ensures
            r is Ok <==> pointer_journal_valid(self@),
            match r {
                Ok(_) => true,
                Err(e) => pointer_journal_refusal(self@, e),
            },
    {
        if !str_eq(self.schema.as_str(), INDEX_CURRENT_PUBLICATION_SCHEMA) {
            return Err(PointerJournalError::UnsupportedSchema { schema: self.schema.clone() });
        }
        if is_blank(self.snapshot.as_str()) {
            return Err(PointerJournalError::EmptySnapshot);
        }
        let expected = generation_id_for(self.snapshot.as_str());
        if !str_eq(self.generation.as_str(), expected.as_str()) {
            return Err(PointerJournalError::GenerationMismatch {
                generation: self.generation.clone(),
                snapshot: self.snapshot.clone(),
            });
        }
        Ok(())
    }

    /// Decides whether to write this journal where `existing` is already recorded: a valid
    /// journal is written where none is recorded (`Ok(true)`), and left as it is where the
    /// same journal is recorded (`Ok(false)`); another recorded journal is still pending.
    pub fn write_decision(&self, existing: Option<&Self>) -> (r: Result<bool, PointerJournalError>)
        ensures
            !pointer_journal_valid(self@) ==> (r matches Err(e) && pointer_journal_refusal(self@, e)),
            pointer_journal_valid(self@) ==> match existing {
                None => r == Ok::<bool, PointerJournalError>(true),
                Some(x) => if x@ == self@ {
                    r == Ok::<bool, PointerJournalError>(false)
                } else {
                    r matches Err(PointerJournalError::Pending { snapshot }) && snapshot@ == x@.1
                },
            },
    {
        match self.validate() {
            Err(e) => {
                return Err(e);
            },
            Ok(_) => {},
        }
        match existing {
            None => Ok(true),
            Some(x) => {
                if str_eq(x.schema.as_str(), self.schema.as_str()) && str_eq(x.snapshot.as_str(), self.snapshot.as_str())
                    && str_eq(x.generation.as_str(), self.generation.as_str()) {
                    Ok(false)
                } else {
                    Err(PointerJournalError::Pending { snapshot: x.snapshot.clone() })
                }
            },
        }
    }
}

/// A journal made for a snapshot is valid exactly when the snapshot is not blank.
pub proof fn lemma_new_pointer_journal_valid(snapshot: Seq<char>)
    ensures
        pointer_journal_valid((INDEX_CURRENT_PUBLICATION_SCHEMA@, snapshot, generation_for(snapshot))) <==> !blank(snapshot),
{
}

/// Why a copied artifact does not carry the identity a move expects.
#[derive(Debug)]
pub enum ArtifactIdentityError {
    NoSchema { label: String, path: String },
    SchemaMismatch { label: String, path: String, schema: String, expected: String },
    NoSnapshot { label: String, path: String },
    SnapshotMismatch { label: String, path: String, snapshot: String, expected: String },
    NoGeneration { label: String, path: String },
    GenerationMismatch { label: String, path: String, generation: String, expected: String },
}

/// The message of an artifact identity error.
pub open spec fn artifact_error_message(e: ArtifactIdentityError) -> Seq<char> {
    match e {
        ArtifactIdentityError::NoSchema { label, path } => label@ + " "@ + path@ + " has no schema"@,
        ArtifactIdentityError::SchemaMismatch { label, path, schema, expected } =>
            label@ + " "@ + path@ + " has schema `"@ + schema@ + "`, expected `"@ + expected@ + "`"@,
        ArtifactIdentityError::NoSnapshot { label, path } => label@ + " "@ + path@ + " has no snapshot identity"@,
        ArtifactIdentityError::SnapshotMismatch { label, path, snapshot, expected } =>
            label@ + " "@ + path@ + " identifies snapshot `"@ + snapshot@ + "`, expected `"@ + expected@ + "`"@,
        ArtifactIdentityError::NoGeneration { label, path } => label@ + " "@ + path@ + " has no generation identity"@,
        ArtifactIdentityError::GenerationMismatch { label, path, generation, expected } =>
            label@ + " "@ + path@ + " identifies generation `"@ + generation@ + "`, expected `"@ + expected@ + "`"@,
    }
}

/// `label`, a space and `path`, followed by `tail`.
fn labelled(label: &String, path: &String, tail: &str) -> (r: String)
    ensures
        r@ == label@ + " "@ + path@ + tail@,
{
    let mut r = label.clone();
    r.append(" ");
    r.append(path.as_str());
    r.append(tail);
    r
}

/// `label`, a space, `path`, `head`, `found`, "`, expected `", `expected` and a backquote.
fn mismatch(label: &String, path: &String, head: &str, found: &String, expected: &String) -> (r: String)
    ensures
        r@ == label@ + " "@ + path@ + head@ + found@ + "`, expected `"@ + expected@ + "`"@,
{
    let mut r = labelled(label, path, head);
    r.append(found.as_str());
    r.append("`, expected `");
    r.append(expected.as_str());
    r.append("`");
    r
}

impl ArtifactIdentityError {
    /// The error's message.
    pub fn to_string(&self) -> (r: String)
        ensures
            r@ == artifact_error_message(*self),
    {
        match self {
            ArtifactIdentityError::NoSchema { label, path } => labelled(label, path, " has no schema"),
            ArtifactIdentityError::SchemaMismatch { label, path, schema, expected } =>
                mismatch(label, path, " has schema `", schema, expected),
            ArtifactIdentityError::NoSnapshot { label, path } => labelled(label, path, " has no snapshot identity"),
            ArtifactIdentityError::SnapshotMismatch { label, path, snapshot, expected } =>
                mismatch(label, path, " identifies snapshot `", snapshot, expected),
            ArtifactIdentityError::NoGeneration { label, path } => labelled(label, path, " has no generation identity"),
            ArtifactIdentityError::GenerationMismatch { label, path, generation, expected } =>
                mismatch(label, path, " identifies generation `", generation, expected),
        }
    }
}

/// The identity fields that an artifact's JSON carries, where they are strings.
pub struct ArtifactIdentity {
    pub schema: Option<String>,
    pub snapshot: Option<String>,
    pub generation: Option<String>,
}

/// The optional string as characters.
pub open spec fn opt_chars(o: Option<String>) -> Option<Seq<char>> {
    match o {
        None => None,
        Some(x) => Some(x@),
    }
}

/// The artifact carries the expected schema, snapshot and generation.
pub open spec fn identity_matches(a: ArtifactIdentity, schema: Seq<char>, snapshot: Seq<char>, generation: Seq<char>) -> bool {
    &&& opt_chars(a.schema) == Some(schema)
    &&& opt_chars(a.snapshot) == Some(snapshot)
    &&& opt_chars(a.generation) == Some(generation)
}

/// The error the identity check gives an artifact that does not match: the first of its
/// schema, snapshot and generation that is missing or differs.
pub open spec fn identity_refusal(
    e: ArtifactIdentityError,
    a: ArtifactIdentity,
    schema: Seq<char>,
    snapshot: Seq<char>,
    generation: Seq<char>,
    label: Seq<char>,
    path: Seq<char>,
) -> bool {
    match (a.schema, a.snapshot, a.generation) {
        (None, _, _) => e matches ArtifactIdentityError::NoSchema { label: l, path: p } && l@ == label && p@ == path,
        (Some(s), _, _) if s@ != schema => e matches ArtifactIdentityError::SchemaMismatch { label: l, path: p, schema: f, expected: x }
            && l@ == label && p@ == path && f@ == s@ && x@ == schema,
        (_, None, _) => e matches ArtifactIdentityError::NoSnapshot { label: l, path: p } && l@ == label && p@ == path,
        (_, Some(s), _) if s@ != snapshot => e matches ArtifactIdentityError::SnapshotMismatch { label: l, path: p, snapshot: f, expected: x }
            && l@ == label && p@ == path && f@ == s@ && x@ == snapshot,
        (_, _, None) => e matches ArtifactIdentityError::NoGeneration { label: l, path: p } && l@ == label && p@ == path,
        (_, _, Some(g)) => e matches ArtifactIdentityError::GenerationMismatch { label: l, path: p, generation: f, expected: x }
            && l@ == label && p@ == path && f@ == g@ && x@ == generation,
    }
}

/// Checks that an artifact (named `label`, read from `path`) carries the expected
/// schema, snapshot and generation.
pub fn check_artifact_identity(
    identity: &ArtifactIdentity,
    expected_schema: &str,
    expected_snapshot: &str,
    expected_generation: &str,
    label: &str,
    path: &str,
) -> (r: Result<(), ArtifactIdentityError>)
    ensures
        r is Ok <==> identity_matches(*identity, expected_schema@, expected_snapshot@, expected_generation@),
        match r {
            Ok(_) => true,
            Err(e) => identity_refusal(e, *identity, expected_schema@, expected_snapshot@, expected_generation@, label@, path@),
        },
{
    let l = String::from_str(label);
    let p = String::from_str(path);
    match &identity.schema {
        None => {
            return Err(ArtifactIdentityError::NoSchema { label: l, path: p });
        },
        Some(s) => {
            if !str_eq(s.as_str(), expected_schema) {
                return Err(ArtifactIdentityError::SchemaMismatch {
                    label: l,
                    path: p,
                    schema: s.clone(),
                    expected: String::from_str(expected_schema),
                });
            }
        },
    }
    match &identity.snapshot {
        None => {
            return Err(ArtifactIdentityError::NoSnapshot { label: l, path: p });
        },
        Some(s) => {
            if !str_eq(s.as_str(), expected_snapshot) {
                return Err(ArtifactIdentityError::SnapshotMismatch {
                    label: l,
                    path: p,
                    snapshot: s.clone(),
                    expected: String::from_str(expected_snapshot),
                });
            }
        },
    }
    match &identity.generation {
        None => {
            return Err(ArtifactIdentityError::NoGeneration { label: l, path: p });
        },
        Some(g) => {
            if !str_eq(g.as_str(), expected_generation) {
                return Err(ArtifactIdentityError::GenerationMismatch {
                    label: l,
                    path: p,
                    generation: g.clone(),
                    expected: String::from_str(expected_generation),
                });
            }
        },
    }
    Ok(())
}

} // verus!
