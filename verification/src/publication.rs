//! The publication journal that joins a canonical snapshot to its generated artifacts,
//! and the pointer that selects the current index generation.

use vstd::prelude::*;
use crate::index_state::{generation_for, generation_id_for};
use crate::text::{str_eq, to_chars};

verus! {

pub const INDEX_PUBLICATION_JOURNAL_SCHEMA_V1: &'static str = "athanor.index_publication.v1";
pub const INDEX_PUBLICATION_JOURNAL_SCHEMA_V2: &'static str = "athanor.index_publication.v2";
pub const INDEX_PUBLICATION_JOURNAL_SCHEMA_V3: &'static str = "athanor.index_publication.v3";
pub const INDEX_CURRENT_SCHEMA: &'static str = "athanor.index_current.v1";

/// `rel` joined under `root`, as `Path::join` joins a relative path.
pub open spec fn join_path(root: Seq<char>, rel: Seq<char>) -> Seq<char> {
    if root.len() == 0 {
        rel
    } else if root.last() == '/' {
        root + rel
    } else {
        root + "/"@ + rel
    }
}

/// Joins the relative path `rel` under `root`.
pub fn join_path_str(root: &str, rel: &str) -> (r: String)
    ensures
        r@ == join_path(root@, rel@),
{
    let chars = to_chars(root);
    let mut r = String::from_str(root);
    if chars.len() > 0 && chars[chars.len() - 1] != '/' {
        r.append("/");
    }
    r.append(rel);
    r
}

/// Where the read model of the current generation is published under a project root.
pub open spec fn read_model_under(root: Seq<char>) -> Seq<char> {
    join_path(root, ".athanor/generated/current/jsonl"@)
}

/// Where the index state is published under a project root.
pub open spec fn index_state_under(root: Seq<char>) -> Seq<char> {
    join_path(root, ".athanor/state/index-state.json"@)
}

/// The published read-model directory of a project.
pub fn expected_read_model(root: &str) -> (r: String)
    ensures
        r@ == read_model_under(root@),
{
    join_path_str(root, ".athanor/generated/current/jsonl")
}

/// The published index-state file of a project.
pub fn expected_index_state(root: &str) -> (r: String)
    ensures
        r@ == index_state_under(root@),
{
    join_path_str(root, ".athanor/state/index-state.json")
}

/// A character a publication id may hold: an ASCII letter or digit, `-` or `_`.
pub open spec fn id_char(c: char) -> bool {
    ('a' <= c && c <= 'z') || ('A' <= c && c <= 'Z') || ('0' <= c && c <= '9') || c == '-' || c == '_'
}

/// A publication id: not empty, and made of `id_char`s only.
pub open spec fn valid_publication_id(id: Seq<char>) -> bool {
    id.len() > 0 && forall|i: int| 0 <= i < id.len() ==> id_char(#[trigger] id[i])
}

/// Why a publication journal was refused.
#[derive(Debug)]
pub enum JournalError {
    UnsupportedSchema { schema: String },
    InvalidPublicationId { id: String },
    EmptySnapshot,
    GenerationMismatch { generation: String, snapshot: String },
    ReadModelMismatch { actual: String, expected: String },
    IndexStateMismatch { actual: String, expected: String },
}

/// The message of a journal error.
pub open spec fn journal_error_message(e: JournalError) -> Seq<char> {
    match e {
        JournalError::UnsupportedSchema { schema } => "unsupported publication journal schema "@ + schema@,
        JournalError::InvalidPublicationId { id } => "invalid publication id `"@ + id@ + "`"@,
        JournalError::EmptySnapshot => "publication journal has an empty snapshot identity"@,
        JournalError::GenerationMismatch { generation, snapshot } =>
            "publication journal generation `"@ + generation@ + "` does not match snapshot `"@ + snapshot@ + "`"@,
        JournalError::ReadModelMismatch { actual, expected } =>
            "publication journal read-model path "@ + actual@ + " does not match expected "@ + expected@,
        JournalError::IndexStateMismatch { actual, expected } =>
            "publication journal index-state path "@ + actual@ + " does not match expected "@ + expected@,
    }
}

impl JournalError {
    /// The error's message.
    pub fn to_string(&self) -> (r: String)
        ensures
            r@ == journal_error_message(*self),
    {
        let mut r;
        match self {
            JournalError::UnsupportedSchema { schema } => {
                r = String::from_str("unsupported publication journal schema ");
                r.append(schema.as_str());
            },
            JournalError::InvalidPublicationId { id } => {
                r = String::from_str("invalid publication id `");
                r.append(id.as_str());
                r.append("`");
            },
            JournalError::EmptySnapshot => {
                r = String::from_str("publication journal has an empty snapshot identity");
            },
            JournalError::GenerationMismatch { generation, snapshot } => {
                r = String::from_str("publication journal generation `");
                r.append(generation.as_str());
                r.append("` does not match snapshot `");
                r.append(snapshot.as_str());
                r.append("`");
            },
            JournalError::ReadModelMismatch { actual, expected } => {
                r = String::from_str("publication journal read-model path ");
                r.append(actual.as_str());
                r.append(" does not match expected ");
                r.append(expected.as_str());
            },
            JournalError::IndexStateMismatch { actual, expected } => {
                r = String::from_str("publication journal index-state path ");
                r.append(actual.as_str());
                r.append(" does not match expected ");
                r.append(expected.as_str());
            },
        }
        assert(r@ =~= journal_error_message(*self));
        r
    }
}

/// Checks a publication id.
pub fn validate_publication_id(id: &str) -> (r: Result<(), JournalError>)
    ensures
        r is Ok <==> valid_publication_id(id@),
        match r {
            Ok(_) => true,
            Err(e) => e matches JournalError::InvalidPublicationId { id: k } && k@ == id@,
        },
{
    let chars = to_chars(id);
    let mut ok = chars.len() > 0;
    let mut i: usize = 0;
    while i < chars.len()
        invariant
            chars@ == id@,
            i <= chars@.len(),
            ok == (chars@.len() > 0 && forall|j: int| 0 <= j < i ==> id_char(#[trigger] chars@[j])),
        decreases chars.len() - i,
    {
        let c = chars[i];
        let good = ('a' <= c && c <= 'z') || ('A' <= c && c <= 'Z') || ('0' <= c && c <= '9') || c == '-' || c == '_';
        ok = ok && good;
        i = i + 1;
    }
    if ok {
        Ok(())
    } else {
        Err(JournalError::InvalidPublicationId { id: String::from_str(id) })
    }
}

/// A publication journal as it was read, in any of its three versions.
pub enum JournalWire {
    V3 { schema: String, prepared: String, generation: String, id: String, read_model: String, index_state: String },
    V2 { schema: String, prepared: String, id: String, read_model: String, index_state: String },
    V1 { schema: String, snapshot: String, id: String, read_model: String, index_state: String },
}

/// The durable journal of one publication, in its current version. A journal read from
/// an earlier version keeps that fact: recovery then admits artifacts that predate
/// generations.
pub struct IndexPublicationJournal {
    schema: String,
    snapshot: String,
    generation: String,
    id: String,
    read_model: String,
    index_state: String,
    legacy_generation: bool,
}

/// What a journal says.
pub struct JournalView {
    pub schema: Seq<char>,
    pub snapshot: Seq<char>,
    pub generation: Seq<char>,
    pub id: Seq<char>,
    pub read_model: Seq<char>,
    pub index_state: Seq<char>,
    pub legacy_generation: bool,
}

impl View for IndexPublicationJournal {
    type V = JournalView;

    closed spec fn view(&self) -> JournalView {
        JournalView {
            schema: self.schema@,
            snapshot: self.snapshot@,
            generation: self.generation@,
            id: self.id@,
            read_model: self.read_model@,
            index_state: self.index_state@,
            legacy_generation: self.legacy_generation,
        }
    }
}

/// The journal that reading `wire` yields, or why it is refused: each version must carry
/// its own schema; earlier versions are lifted to the current one with the generation of
/// their snapshot.
pub open spec fn normalized(wire: JournalWire) -> Result<JournalView, ()> {
    match wire {
        JournalWire::V3 { schema, prepared, generation, id, read_model, index_state } =>
            if schema@ == INDEX_PUBLICATION_JOURNAL_SCHEMA_V3@ {
                Ok(JournalView { schema: INDEX_PUBLICATION_JOURNAL_SCHEMA_V3@, snapshot: prepared@, generation: generation@,
                    id: id@, read_model: read_model@, index_state: index_state@, legacy_generation: false })
            } else {
                Err(())
            },
        JournalWire::V2 { schema, prepared, id, read_model, index_state } =>
            if schema@ == INDEX_PUBLICATION_JOURNAL_SCHEMA_V2@ {
                Ok(JournalView { schema: INDEX_PUBLICATION_JOURNAL_SCHEMA_V3@, snapshot: prepared@,
                    generation: generation_for(prepared@), id: id@, read_model: read_model@, index_state: index_state@,
                    legacy_generation: true })
            } else {
                Err(())
            },
        JournalWire::V1 { schema, snapshot, id, read_model, index_state } =>
            if schema@ == INDEX_PUBLICATION_JOURNAL_SCHEMA_V1@ {
                Ok(JournalView { schema: INDEX_PUBLICATION_JOURNAL_SCHEMA_V3@, snapshot: snapshot@,
                    generation: generation_for(snapshot@), id: id@, read_model: read_model@, index_state: index_state@,
                    legacy_generation: true })
            } else {
                Err(())
            },
    }
}

/// The schema a wire journal carries.
pub open spec fn wire_schema(wire: JournalWire) -> Seq<char> {
    match wire {
        JournalWire::V3 { schema, .. } => schema@,
        JournalWire::V2 { schema, .. } => schema@,
        JournalWire::V1 { schema, .. } => schema@,
    }
}

impl IndexPublicationJournal {
    /// The journal of a new publication of `snapshot` under `root`.
    pub fn with_id(root: &str, snapshot: &str, id: &str) -> (r: Self)
        ensures
            r@ == (JournalView {
                schema: INDEX_PUBLICATION_JOURNAL_SCHEMA_V3@,
                snapshot: snapshot@,
                generation: generation_for(snapshot@),
                id: id@,
                read_model: read_model_under(root@),
                index_state: index_state_under(root@),
                legacy_generation: false,
            }),
    {
        IndexPublicationJournal {
            schema: String::from_str(INDEX_PUBLICATION_JOURNAL_SCHEMA_V3),
            snapshot: String::from_str(snapshot),
            generation: generation_id_for(snapshot),
            id: String::from_str(id),
            read_model: expected_read_model(root),
            index_state: expected_index_state(root),
            legacy_generation: false,
        }
    }

    /// Reads a journal from its wire form, lifting an earlier version to the current one.
    pub fn from_wire(wire: JournalWire) -> (r: Result<Self, JournalError>)
        ensures
            match r {
                Ok(j) => normalized(wire) == Ok::<JournalView, ()>(j@),
                Err(e) => {
                    &&& normalized(wire) is Err
                    &&& e matches JournalError::UnsupportedSchema { schema: s } && s@ == wire_schema(wire)
                },
            },
    {
        match wire {
            JournalWire::V3 { schema, prepared, generation, id, read_model, index_state } => {
                if !str_eq(schema.as_str(), INDEX_PUBLICATION_JOURNAL_SCHEMA_V3) {
                    return Err(JournalError::UnsupportedSchema { schema });
                }
                Ok(IndexPublicationJournal {
                    schema: String::from_str(INDEX_PUBLICATION_JOURNAL_SCHEMA_V3),
                    snapshot: prepared,
                    generation,
                    id,
                    read_model,
                    index_state,
                    legacy_generation: false,
                })
            },
            JournalWire::V2 { schema, prepared, id, read_model, index_state } => {
                if !str_eq(schema.as_str(), INDEX_PUBLICATION_JOURNAL_SCHEMA_V2) {
                    return Err(JournalError::UnsupportedSchema { schema });
                }
                let generation = generation_id_for(prepared.as_str());
                Ok(IndexPublicationJournal {
                    schema: String::from_str(INDEX_PUBLICATION_JOURNAL_SCHEMA_V3),
                    snapshot: prepared,
                    generation,
                    id,
                    read_model,
                    index_state,
                    legacy_generation: true,
                })
            },
            JournalWire::V1 { schema, snapshot, id, read_model, index_state } => {
                if !str_eq(schema.as_str(), INDEX_PUBLICATION_JOURNAL_SCHEMA_V1) {
                    return Err(JournalError::UnsupportedSchema { schema });
                }
                let generation = generation_id_for(snapshot.as_str());
                Ok(IndexPublicationJournal {
                    schema: String::from_str(INDEX_PUBLICATION_JOURNAL_SCHEMA_V3),
                    snapshot,
                    generation,
                    id,
                    read_model,
                    index_state,
                    legacy_generation: true,
                })
            },
        }
    }

    /// The form the journal is written in: always the current version.
    pub fn to_wire(&self) -> (r: JournalWire)
        ensures
            r matches JournalWire::V3 { schema, prepared, generation, id, read_model, index_state }
                && schema@ == self@.schema && prepared@ == self@.snapshot && generation@ == self@.generation
                && id@ == self@.id && read_model@ == self@.read_model && index_state@ == self@.index_state,
    {
        JournalWire::V3 {
            schema: self.schema.clone(),
            prepared: self.snapshot.clone(),
            generation: self.generation.clone(),
            id: self.id.clone(),
            read_model: self.read_model.clone(),
            index_state: self.index_state.clone(),
        }
    }

    pub fn snapshot(&self) -> (r: &String)
        ensures
            r@ == self@.snapshot,
    {
        &self.snapshot
    }

    pub fn generation(&self) -> (r: &String)
        ensures
            r@ == self@.generation,
    {
        &self.generation
    }

    pub fn id(&self) -> (r: &String)
        ensures
            r@ == self@.id,
    {
        &self.id
    }

    pub fn read_model(&self) -> (r: &String)
        ensures
            r@ == self@.read_model,
    {
        &self.read_model
    }

    pub fn index_state(&self) -> (r: &String)
        ensures
            r@ == self@.index_state,
    {
        &self.index_state
    }

    /// Whether recovery must find the journal's generation identity on the artifacts: so
    /// for every journal but one read from an earlier version.
    pub fn requires_generation_identity(&self) -> (r: bool)
        ensures
            r == !self@.legacy_generation,
    {
        !self.legacy_generation
    }

    /// Checks the journal against the project it is recovered in: a valid id, a
    /// snapshot, the snapshot's generation, and the project's artifact paths.
    pub fn validate_for_root(&self, root: &str) -> (r: Result<(), JournalError>)
        ensures
            r is Ok <==> journal_valid_for(self@, root@),
            match r {
                Ok(_) => true,
                Err(e) => if !valid_publication_id(self@.id) {
                    e matches JournalError::InvalidPublicationId { id } && id@ == self@.id
                } else if self@.snapshot.len() == 0 {
                    e is EmptySnapshot
                } else if self@.generation != generation_for(self@.snapshot) {
                    e matches JournalError::GenerationMismatch { generation, snapshot }
                        && generation@ == self@.generation && snapshot@ == self@.snapshot
                } else if self@.read_model != read_model_under(root@) {
                    e matches JournalError::ReadModelMismatch { actual, expected }
                        && actual@ == self@.read_model && expected@ == read_model_under(root@)
                } else {
                    e matches JournalError::IndexStateMismatch { actual, expected }
                        && actual@ == self@.index_state && expected@ == index_state_under(root@)
                },
            },
    {
        validate_publication_id(self.id.as_str())?;
        if self.snapshot.as_str().unicode_len() == 0 {
            return Err(JournalError::EmptySnapshot);
        }
        let expected_generation = generation_id_for(self.snapshot.as_str());
        if !str_eq(self.generation.as_str(), expected_generation.as_str()) {
            return Err(JournalError::GenerationMismatch { generation: self.generation.clone(), snapshot: self.snapshot.clone() });
        }
        let expected_read = expected_read_model(root);
        if !str_eq(self.read_model.as_str(), expected_read.as_str()) {
            return Err(JournalError::ReadModelMismatch { actual: self.read_model.clone(), expected: expected_read });
        }
        let expected_state = expected_index_state(root);
        if !str_eq(self.index_state.as_str(), expected_state.as_str()) {
            return Err(JournalError::IndexStateMismatch { actual: self.index_state.clone(), expected: expected_state });
        }
        Ok(())
    }
}

/// A journal that a project at `root` can recover from.
pub open spec fn journal_valid_for(j: JournalView, root: Seq<char>) -> bool {
    &&& valid_publication_id(j.id)
    &&& j.snapshot.len() > 0
    &&& j.generation == generation_for(j.snapshot)
    &&& j.read_model == read_model_under(root)
    &&& j.index_state == index_state_under(root)
}

/// What is written of a journal reads back as the same journal.
pub proof fn lemma_journal_round_trip(j: IndexPublicationJournal, wire: JournalWire)
    requires
        j@.schema == INDEX_PUBLICATION_JOURNAL_SCHEMA_V3@,
        !j@.legacy_generation,
        wire matches JournalWire::V3 { schema, prepared, generation, id, read_model, index_state }
            && schema@ == j@.schema && prepared@ == j@.snapshot && generation@ == j@.generation
            && id@ == j@.id && read_model@ == j@.read_model && index_state@ == j@.index_state,
    ensures
        normalized(wire) == Ok::<JournalView, ()>(j@),
{
}

/// A journal read from any version carries the current schema and, unless it was written
/// in the current version, the generation of its snapshot.
pub proof fn lemma_normalized_is_current(wire: JournalWire)
    requires
        normalized(wire) is Ok,
    ensures
        normalized(wire)->Ok_0.schema == INDEX_PUBLICATION_JOURNAL_SCHEMA_V3@,
        normalized(wire)->Ok_0.legacy_generation ==> normalized(wire)->Ok_0.generation == generation_for(normalized(wire)->Ok_0.snapshot),
        normalized(wire)->Ok_0.legacy_generation == !(wire is V3),
{
}

/// A fresh journal is valid for its own project exactly when its id and snapshot are.
pub proof fn lemma_fresh_journal_valid(root: Seq<char>, snapshot: Seq<char>, id: Seq<char>)
    ensures
        journal_valid_for(JournalView {
            schema: INDEX_PUBLICATION_JOURNAL_SCHEMA_V3@,
            snapshot,
            generation: generation_for(snapshot),
            id,
            read_model: read_model_under(root),
            index_state: index_state_under(root),
            legacy_generation: false,
        }, root) <==> valid_publication_id(id) && snapshot.len() > 0,
{
}

/// Unicode white space, as `char::is_whitespace` and `str::trim` use it.
pub open spec fn is_white_space(c: char) -> bool {
    c == '\t' || c == '\n' || c == '\u{0B}' || c == '\u{0C}' || c == '\r' || c == ' ' || c == '\u{85}'
        || c == '\u{A0}' || c == '\u{1680}' || ('\u{2000}' <= c && c <= '\u{200A}') || c == '\u{2028}'
        || c == '\u{2029}' || c == '\u{202F}' || c == '\u{205F}' || c == '\u{3000}'
}

/// Nothing is left of `s` once white space is trimmed.
pub open spec fn blank(s: Seq<char>) -> bool {
    forall|i: int| 0 <= i < s.len() ==> is_white_space(#[trigger] s[i])
}

pub(crate) fn is_blank(s: &str) -> (r: bool)
    ensures
        r == blank(s@),
{
    let chars = to_chars(s);
    let mut i: usize = 0;
    while i < chars.len()
        invariant
            chars@ == s@,
            i <= chars@.len(),
            forall|j: int| 0 <= j < i ==> is_white_space(#[trigger] chars@[j]),
        decreases chars.len() - i,
    {
        let c = chars[i];
        let ws = c == '\t' || c == '\n' || c == '\u{0B}' || c == '\u{0C}' || c == '\r' || c == ' ' || c == '\u{85}'
            || c == '\u{A0}' || c == '\u{1680}' || ('\u{2000}' <= c && c <= '\u{200A}') || c == '\u{2028}'
            || c == '\u{2029}' || c == '\u{202F}' || c == '\u{205F}' || c == '\u{3000}';
        if !ws {
            return false;
        }
        i = i + 1;
    }
    true
}

/// The read model of a generation, relative to the project root.
pub open spec fn read_model_relative(generation: Seq<char>) -> Seq<char> {
    ".athanor/generated/index-generations/"@ + generation + "/jsonl"@
}

/// The index state of a generation, relative to the project root.
pub open spec fn index_state_relative(generation: Seq<char>) -> Seq<char> {
    ".athanor/state/index-generations/"@ + generation + "/index-state.json"@
}

fn read_model_relative_for(generation: &str) -> (r: String)
    ensures
        r@ == read_model_relative(generation@),
{
    let mut r = String::from_str(".athanor/generated/index-generations/");
    r.append(generation);
    r.append("/jsonl");
    r
}

fn index_state_relative_for(generation: &str) -> (r: String)
    ensures
        r@ == index_state_relative(generation@),
{
    let mut r = String::from_str(".athanor/state/index-generations/");
    r.append(generation);
    r.append("/index-state.json");
    r
}

/// The pointer that selects the one complete index generation that readers see.
pub struct IndexCurrent {
    schema: String,
    generation: String,
    snapshot: String,
    read_model: String,
    index_state: String,
}

/// What a pointer says.
pub struct CurrentView {
    pub schema: Seq<char>,
    pub generation: Seq<char>,
    pub snapshot: Seq<char>,
    pub read_model: Seq<char>,
    pub index_state: Seq<char>,
}

impl View for IndexCurrent {
    type V = CurrentView;

    closed spec fn view(&self) -> CurrentView {
        CurrentView {
            schema: self.schema@,
            generation: self.generation@,
            snapshot: self.snapshot@,
            read_model: self.read_model@,
            index_state: self.index_state@,
        }
    }
}

/// Why a pointer was refused.
#[derive(Debug)]
pub enum CurrentPointerError {
    UnsupportedSchema { schema: String },
    EmptySnapshot,
    GenerationMismatch { generation: String, snapshot: String },
    ReadModelMismatch { read_model: String, generation: String },
    IndexStateMismatch { index_state: String, generation: String },
}

/// The message of a pointer error.
pub open spec fn current_error_message(e: CurrentPointerError) -> Seq<char> {
    match e {
        CurrentPointerError::UnsupportedSchema { schema } => "unsupported index current pointer schema `"@ + schema@ + "`"@,
        CurrentPointerError::EmptySnapshot => "index current pointer has an empty snapshot identity"@,
        CurrentPointerError::GenerationMismatch { generation, snapshot } =>
            "index current generation `"@ + generation@ + "` does not match snapshot `"@ + snapshot@ + "`"@,
        CurrentPointerError::ReadModelMismatch { read_model, generation } =>
            "index current read-model path `"@ + read_model@ + "` does not match generation `"@ + generation@ + "`"@,
        CurrentPointerError::IndexStateMismatch { index_state, generation } =>
            "index current state path `"@ + index_state@ + "` does not match generation `"@ + generation@ + "`"@,
    }
}

impl CurrentPointerError {
    /// The error's message.
    pub fn to_string(&self) -> (r: String)
        ensures
            r@ == current_error_message(*self),
    {
        let mut r;
        match self {
            CurrentPointerError::UnsupportedSchema { schema } => {
                r = String::from_str("unsupported index current pointer schema `");
                r.append(schema.as_str());
                r.append("`");
            },
            CurrentPointerError::EmptySnapshot => {
                r = String::from_str("index current pointer has an empty snapshot identity");
            },
            CurrentPointerError::GenerationMismatch { generation, snapshot } => {
                r = String::from_str("index current generation `");
                r.append(generation.as_str());
                r.append("` does not match snapshot `");
                r.append(snapshot.as_str());
                r.append("`");
            },
            CurrentPointerError::ReadModelMismatch { read_model, generation } => {
                r = String::from_str("index current read-model path `");
                r.append(read_model.as_str());
                r.append("` does not match generation `");
                r.append(generation.as_str());
                r.append("`");
            },
            CurrentPointerError::IndexStateMismatch { index_state, generation } => {
                r = String::from_str("index current state path `");
                r.append(index_state.as_str());
                r.append("` does not match generation `");
                r.append(generation.as_str());
                r.append("`");
            },
        }
        assert(r@ =~= current_error_message(*self));
        r
    }
}

/// A pointer that readers may follow.
pub open spec fn current_valid(c: CurrentView) -> bool {
    &&& c.schema == INDEX_CURRENT_SCHEMA@
    &&& !blank(c.snapshot)
    &&& c.generation == generation_for(c.snapshot)
    &&& c.read_model == read_model_relative(c.generation)
    &&& c.index_state == index_state_relative(c.generation)
}

impl IndexCurrent {
    /// The pointer to the generation of `snapshot`.
    pub fn for_snapshot(snapshot: &str) -> (r: Self)
        ensures
            r@ == (CurrentView {
                schema: INDEX_CURRENT_SCHEMA@,
                generation: generation_for(snapshot@),
                snapshot: snapshot@,
                read_model: read_model_relative(generation_for(snapshot@)),
                index_state: index_state_relative(generation_for(snapshot@)),
            }),
    {
        let generation = generation_id_for(snapshot);
        IndexCurrent {
            schema: String::from_str(INDEX_CURRENT_SCHEMA),
            read_model: read_model_relative_for(generation.as_str()),
            index_state: index_state_relative_for(generation.as_str()),
            generation,
            snapshot: String::from_str(snapshot),
        }
    }

    /// A pointer as it was read.
    pub fn from_parts(schema: String, generation: String, snapshot: String, read_model: String, index_state: String) -> (r: Self)
        ensures
            r@ == (CurrentView { schema: schema@, generation: generation@, snapshot: snapshot@, read_model: read_model@, index_state: index_state@ }),
    {
        IndexCurrent { schema, generation, snapshot, read_model, index_state }
    }

    pub fn generation(&self) -> (r: &String)
        ensures
            r@ == self@.generation,
    {
        &self.generation
    }

    pub fn snapshot(&self) -> (r: &String)
        ensures
            r@ == self@.snapshot,
    {
        &self.snapshot
    }

    pub fn schema(&self) -> (r: &String)
        ensures
            r@ == self@.schema,
    {
        &self.schema
    }

    /// The read model the pointer selects, relative to the project root.
    pub fn read_model(&self) -> (r: &String)
        ensures
            r@ == self@.read_model,
    {
        &self.read_model
    }

    /// The index state the pointer selects, relative to the project root.
    pub fn index_state(&self) -> (r: &String)
        ensures
            r@ == self@.index_state,
    {
        &self.index_state
    }

    /// The read model the pointer selects, under a project root.
    pub fn read_model_path(&self, root: &str) -> (r: String)
        ensures
            r@ == join_path(root@, self@.read_model),
    {
        join_path_str(root, self.read_model.as_str())
    }

    /// The index state the pointer selects, under a project root.
    pub fn index_state_path(&self, root: &str) -> (r: String)
        ensures
            r@ == join_path(root@, self@.index_state),
    {
        join_path_str(root, self.index_state.as_str())
    }

    /// Checks that the pointer names one generation consistently.
    pub fn validate(&self) -> (r: Result<(), CurrentPointerError>)
        ensures
            r is Ok <==> current_valid(self@),
            match r {
                Ok(_) => true,
                Err(e) => if self@.schema != INDEX_CURRENT_SCHEMA@ {
                    e matches CurrentPointerError::UnsupportedSchema { schema } && schema@ == self@.schema
                } else if blank(self@.snapshot) {
                    e is EmptySnapshot
                } else if self@.generation != generation_for(self@.snapshot) {
                    e matches CurrentPointerError::GenerationMismatch { generation, snapshot }
                        && generation@ == self@.generation && snapshot@ == self@.snapshot
                } else if self@.read_model != read_model_relative(self@.generation) {
                    e matches CurrentPointerError::ReadModelMismatch { read_model, generation }
                        && read_model@ == self@.read_model && generation@ == self@.generation
                } else {
                    e matches CurrentPointerError::IndexStateMismatch { index_state, generation }
                        && index_state@ == self@.index_state && generation@ == self@.generation
                },
            },
    {
        if !str_eq(self.schema.as_str(), INDEX_CURRENT_SCHEMA) {
            return Err(CurrentPointerError::UnsupportedSchema { schema: self.schema.clone() });
        }
        if is_blank(self.snapshot.as_str()) {
            return Err(CurrentPointerError::EmptySnapshot);
        }
        let expected_generation = generation_id_for(self.snapshot.as_str());
        if !str_eq(self.generation.as_str(), expected_generation.as_str()) {
            return Err(CurrentPointerError::GenerationMismatch { generation: self.generation.clone(), snapshot: self.snapshot.clone() });
        }
        let expected_read = read_model_relative_for(self.generation.as_str());
        if !str_eq(self.read_model.as_str(), expected_read.as_str()) {
            return Err(CurrentPointerError::ReadModelMismatch { read_model: self.read_model.clone(), generation: self.generation.clone() });
        }
        let expected_state = index_state_relative_for(self.generation.as_str());
        if !str_eq(self.index_state.as_str(), expected_state.as_str()) {
            return Err(CurrentPointerError::IndexStateMismatch { index_state: self.index_state.clone(), generation: self.generation.clone() });
        }
        Ok(())
    }
}

/// A pointer made for a snapshot is valid exactly when the snapshot is not blank.
pub proof fn lemma_pointer_for_snapshot_valid(snapshot: Seq<char>)
    ensures
        current_valid(CurrentView {
            schema: INDEX_CURRENT_SCHEMA@,
            generation: generation_for(snapshot),
            snapshot,
            read_model: read_model_relative(generation_for(snapshot)),
            index_state: index_state_relative(generation_for(snapshot)),
        }) <==> !blank(snapshot),
{
}

} // verus!
