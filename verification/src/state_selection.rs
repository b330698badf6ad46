//! Where an index state is read from: a project's own index-state file gives way to the
//! state that the project's current pointer selects, and a pointer that cannot be trusted
//! stops the read rather than falling back.

use vstd::prelude::*;
use crate::publication::{current_error_message, current_valid, join_path, join_path_str, CurrentPointerError, IndexCurrent};
use crate::text::{slice_chars, string_of_chars, to_chars};

verus! {

/// Where a project keeps its own index state, under its root.
pub const PROJECT_INDEX_STATE: &'static str = ".athanor/state/index-state.json";

/// Where a project keeps its current pointer, under its root.
pub const PROJECT_INDEX_CURRENT: &'static str = ".athanor/state/index-current.json";

/// The project root of an index state kept at `<root>/.athanor/state/index-state.json`;
/// a path that is that suffix alone belongs to the working directory's project.
pub open spec fn project_root_of(path: Seq<char>) -> Option<Seq<char>> {
    let suffix = PROJECT_INDEX_STATE@;
    let k = path.len() - suffix.len() - 1;
    if path == suffix {
        Some(Seq::empty())
    } else if path.len() > suffix.len() && path.subrange(path.len() - suffix.len(), path.len() as int) == suffix
        && path[k] == '/' {
        if k == 0 { Some("/"@) } else { Some(path.subrange(0, k)) }
    } else {
        None
    }
}

/// What the read of an index state is refused for.
#[derive(Debug)]
pub enum StateSelectionError {
    /// The project's current pointer does not name one generation consistently.
    InvalidPointer { pointer: String, error: CurrentPointerError },
    /// The project's current pointer selects artifacts that are not there.
    MissingArtifacts { pointer: String },
}

/// The message of a refusal.
pub open spec fn state_selection_message(e: StateSelectionError) -> Seq<char> {
    match e {
        StateSelectionError::InvalidPointer { pointer, error } =>
            "index current pointer "@ + pointer@ + " is invalid: "@ + current_error_message(error),
        StateSelectionError::MissingArtifacts { pointer } =>
            "index current pointer "@ + pointer@ + " selects missing artifacts"@,
    }
}

impl StateSelectionError {
    /// The refusal's message.
    pub fn to_string(&self) -> (r: String)
        ensures
            r@ == state_selection_message(*self),
    {
        match self {
            StateSelectionError::InvalidPointer { pointer, error } => {
                let mut r = String::from_str("index current pointer ");
                r.append(pointer.as_str());
                r.append(" is invalid: ");
                let m = error.to_string();
                r.append(m.as_str());
                r
            },
            StateSelectionError::MissingArtifacts { pointer } => {
                let mut r = String::from_str("index current pointer ");
                r.append(pointer.as_str());
                r.append(" selects missing artifacts");
                r
            },
        }
    }
}

/// The project root of the index-state path `path`, where it is a project's own index state.
pub fn project_root(path: &str) -> (r: Option<String>)
    ensures
        match r {
            None => project_root_of(path@) is None,
            Some(root) => project_root_of(path@) == Some(root@),
        },
{
    let p = to_chars(path);
    let q = to_chars(PROJECT_INDEX_STATE);
    let n = p.len();
    let m = q.len();
    if n < m {
        return None;
    }
    let off = n - m;
    let mut i: usize = 0;
    while i < m
        invariant
            p@ == path@,
            q@ == PROJECT_INDEX_STATE@,
            n == p@.len(),
            m == q@.len(),
            off + m == n,
            i <= m,
            forall|j: int| 0 <= j < i ==> p@[off + j] == q@[j],
        decreases m - i,
    {
        if p[off + i] != q[i] {
            proof {
                assert(p@.subrange(off as int, n as int)[i as int] != q@[i as int]);
                assert(p@.subrange(off as int, n as int) != q@);
                if off == 0 {
                    assert(p@.subrange(0, n as int) =~= p@);
                }
                assert(p@ != q@);
            }
            return None;
        }
        i = i + 1;
    }
    proof {
        assert(p@.subrange(off as int, n as int) =~= q@);
    }
    if off == 0 {
        proof {
            assert(p@.subrange(0, n as int) =~= p@);
        }
        return Some(String::new());
    }
    if p[off - 1] != '/' {
        return None;
    }
    if off == 1 {
        return Some(String::from_str("/"));
    }
    let head = slice_chars(p.as_slice(), 0, off - 1);
    Some(string_of_chars(head.as_slice()))
}

/// Where the current pointer of the project that keeps its index state at `configured`
/// lies; `None` where `configured` is not a project's own index state.
pub fn current_pointer_path(configured: &str) -> (r: Option<String>)
    ensures
        match project_root_of(configured@) {
            None => r is None,
            Some(root) => r matches Some(p) && p@ == join_path(root, PROJECT_INDEX_CURRENT@),
        },
{
    match project_root(configured) {
        None => None,
        Some(root) => Some(join_path_str(root.as_str(), PROJECT_INDEX_CURRENT)),
    }
}

/// Chooses the file to read an index state from. A path that is not a project's own index
/// state is read as it is. For a project, a current pointer, where there is one, is trusted
/// only if it names one generation consistently and the read model and index state it
/// selects are both present (`read_model_present`, `index_state_present`): then its index
/// state is read; otherwise the read is refused and never falls back to the project's own
/// file. Without a pointer the project's own index state is read.
pub fn select_index_state_path(
    configured: &str,
    pointer: Option<&IndexCurrent>,
    read_model_present: bool,
    index_state_present: bool,
) -> (r: Result<String, StateSelectionError>)
    ensures
        match project_root_of(configured@) {
            None => r matches Ok(p) && p@ == configured@,
            Some(root) => match pointer {
                None => r matches Ok(p) && p@ == join_path(root, PROJECT_INDEX_STATE@),
                Some(c) => if !current_valid(c@) {
                    r matches Err(StateSelectionError::InvalidPointer { pointer: pp, error: _ })
                        && pp@ == join_path(root, PROJECT_INDEX_CURRENT@)
                } else if read_model_present && index_state_present {
                    r matches Ok(p) && p@ == join_path(root, c@.index_state)
                } else {
                    r matches Err(StateSelectionError::MissingArtifacts { pointer: pp })
                        && pp@ == join_path(root, PROJECT_INDEX_CURRENT@)
                },
            },
        },
{
    let root = match project_root(configured) {
        None => {
            return Ok(String::from_str(configured));
        },
        Some(root) => root,
    };
    match pointer {
        None => Ok(join_path_str(root.as_str(), PROJECT_INDEX_STATE)),
        Some(c) => {
            match c.validate() {
                Err(error) => Err(StateSelectionError::InvalidPointer {
                    pointer: join_path_str(root.as_str(), PROJECT_INDEX_CURRENT),
                    error,
                }),
                Ok(()) => {
                    if read_model_present && index_state_present {
                        Ok(c.index_state_path(root.as_str()))
                    } else {
                        Err(StateSelectionError::MissingArtifacts {
                            pointer: join_path_str(root.as_str(), PROJECT_INDEX_CURRENT),
                        })
                    }
                },
            }
        },
    }
}

} // verus!
