//! The per-file index state that lets an index run tell changed files from unchanged
//! ones, and the paths under which a new state is published.

use vstd::prelude::*;
use crate::strset::{is_str_set, set_contains, set_insert, set_new, set_of, strictly_sorted};
use crate::text::{lemma_lex_lt_irreflexive, lemma_lex_lt_transitive, lemma_lex_total, lex_lt, str_eq, str_lt};

verus! {

pub const INDEX_STATE_SCHEMA: &'static str = "athanor.index_state.v46";

/// A source file as an index run discovered it.
pub struct SourceFile {
    pub path: String,
    pub content_hash: Option<String>,
    pub language_hint: Option<String>,
}

/// What the index state remembers of one file.
pub struct FileState {
    pub content_hash: Option<String>,
    pub language_hint: Option<String>,
}

/// A file path with its state.
pub struct FileEntry {
    pub path: String,
    pub state: FileState,
}

/// The index state: its schema, the snapshot and generation it belongs to, and the state
/// of each file, ordered by path with no path twice.
pub struct IndexState {
    pub schema: String,
    pub snapshot: Option<String>,
    pub generation: Option<String>,
    pub files: Vec<FileEntry>,
}

/// The files of an index run split against the previous state: paths whose content or
/// language changed (or that are new), paths that did not change, and paths that are gone.
/// Each list is ordered with no path twice.
pub struct AffectedFileSet {
    pub changed: Vec<String>,
    pub unchanged: Vec<String>,
    pub removed: Vec<String>,
}

/// The view of an optional string.
pub open spec fn opt_chars(o: Option<String>) -> Option<Seq<char>> {
    match o {
        None => None,
        Some(s) => Some(s@),
    }
}

/// What a file state says: its content hash and language hint.
pub open spec fn state_view(s: FileState) -> (Option<Seq<char>>, Option<Seq<char>>) {
    (opt_chars(s.content_hash), opt_chars(s.language_hint))
}

/// What a source file says of its state.
pub open spec fn source_state(s: SourceFile) -> (Option<Seq<char>>, Option<Seq<char>>) {
    (opt_chars(s.content_hash), opt_chars(s.language_hint))
}

/// The paths of the file entries.
pub open spec fn entry_paths(files: Seq<FileEntry>) -> Seq<Seq<char>> {
    Seq::new(files.len(), |i: int| files[i].path@)
}

/// The file states by path.
pub open spec fn files_map(files: Seq<FileEntry>) -> Map<Seq<char>, (Option<Seq<char>>, Option<Seq<char>>)>
    decreases files.len(),
{
    if files.len() == 0 {
        Map::empty()
    } else {
        files_map(files.drop_last()).insert(files.last().path@, state_view(files.last().state))
    }
}

/// The file states that a list of sources records: a later source of a path wins.
pub open spec fn sources_map(sources: Seq<SourceFile>) -> Map<Seq<char>, (Option<Seq<char>>, Option<Seq<char>>)>
    decreases sources.len(),
{
    if sources.len() == 0 {
        Map::empty()
    } else {
        sources_map(sources.drop_last()).insert(sources.last().path@, source_state(sources.last()))
    }
}

/// The index state is well formed: its files are ordered by path with no path twice.
pub open spec fn wf(state: IndexState) -> bool {
    strictly_sorted(entry_paths(state.files@))
}

/// The generation an index snapshot is published as.
pub open spec fn generation_for(snapshot: Seq<char>) -> Seq<char> {
    "gen_"@ + snapshot
}

/// The generation id of a snapshot.
pub fn generation_id_for(snapshot: &str) -> (r: String)
    ensures
        r@ == generation_for(snapshot@),
{
    let mut r = String::from_str("gen_");
    r.append(snapshot);
    r
}

fn copy_opt(o: &Option<String>) -> (r: Option<String>)
    ensures
        opt_chars(r) == opt_chars(*o),
{
    match o {
        None => None,
        Some(s) => Some(s.clone()),
    }
}

fn opt_eq(a: &Option<String>, b: &Option<String>) -> (r: bool)
    ensures
        r == (opt_chars(*a) == opt_chars(*b)),
{
    match (a, b) {
        (None, None) => true,
        (Some(x), Some(y)) => str_eq(x.as_str(), y.as_str()),
        _ => false,
    }
}

/// In a path-ordered entry list, the map has exactly the listed paths, each with its state.
pub proof fn lemma_files_map(files: Seq<FileEntry>)
    requires
        strictly_sorted(entry_paths(files)),
    ensures
        forall|p: Seq<char>| #[trigger] files_map(files).contains_key(p) <==> entry_paths(files).contains(p),
        forall|i: int| 0 <= i < files.len() ==> #[trigger] files_map(files)[files[i].path@] == state_view(files[i].state),
    decreases files.len(),
{
    if files.len() > 0 {
        let d = files.drop_last();
        assert(entry_paths(d) =~= entry_paths(files).drop_last());
        lemma_files_map(d);
        let fm = files_map(files);
        let dm = files_map(d);
        let last = files.last();
        assert(fm == dm.insert(last.path@, state_view(last.state)));
        assert forall|p: Seq<char>| #[trigger] files_map(files).contains_key(p) <==> entry_paths(files).contains(p) by {
            if entry_paths(d).contains(p) {
                let w = choose|w: int| 0 <= w < entry_paths(d).len() && entry_paths(d)[w] == p;
                assert(entry_paths(files)[w] == p);
            }
            if p == last.path@ {
                assert(entry_paths(files)[files.len() - 1] == p);
            }
            if entry_paths(files).contains(p) {
                let w = choose|w: int| 0 <= w < entry_paths(files).len() && entry_paths(files)[w] == p;
                if w < d.len() {
                    assert(entry_paths(d)[w] == p);
                    assert(dm.contains_key(p));
                } else {
                    assert(p == last.path@);
                }
            }
        }
        assert forall|i: int| 0 <= i < files.len() implies #[trigger] files_map(files)[files[i].path@] == state_view(files[i].state) by {
            if i < files.len() - 1 {
                assert(lex_lt(entry_paths(files)[i], entry_paths(files)[files.len() - 1]));
                if files[i].path@ == last.path@ {
                    lemma_lex_lt_irreflexive(files[i].path@);
                }
                assert(d[i] == files[i]);
                assert(files_map(d)[d[i].path@] == state_view(d[i].state));
            }
        }
    }
}

impl IndexState {
    /// The state of an index that has seen nothing.
    pub fn empty() -> (r: Self)
        ensures
            r.schema@ == INDEX_STATE_SCHEMA@,
            r.snapshot is None,
            r.generation is None,
            r.files@.len() == 0,
            wf(r),
    {
        IndexState { schema: String::from_str(INDEX_STATE_SCHEMA), snapshot: None, generation: None, files: Vec::new() }
    }

    /// The state that a run over `sources` leaves for `snapshot`: the last source of each
    /// path gives that path's state.
    pub fn from_sources(snapshot: &str, sources: &[SourceFile]) -> (r: Self)
        ensures
            wf(r),
            r.schema@ == INDEX_STATE_SCHEMA@,
            opt_chars(r.snapshot) == Some(snapshot@),
            opt_chars(r.generation) == Some(generation_for(snapshot@)),
            files_map(r.files@) == sources_map(sources@),
    {
        let mut files: Vec<FileEntry> = Vec::new();
        let mut i: usize = 0;
        while i < sources.len()
            invariant
                i <= sources@.len(),
                strictly_sorted(entry_paths(files@)),
                files_map(files@) == sources_map(sources@.subrange(0, i as int)),
            decreases sources.len() - i,
        {
            let src = &sources[i];
            let ghost before = files@;
            proof {
                lemma_files_map(before);
            }
            let mut p: usize = 0;
            while p < files.len() && str_lt(files[p].path.as_str(), src.path.as_str())
                invariant
                    p <= files@.len(),
                    files@ == before,
                    forall|q: int| 0 <= q < p ==> lex_lt(#[trigger] files@[q].path@, src.path@),
                decreases files.len() - p,
            {
                p = p + 1;
            }
            let entry = FileEntry {
                path: src.path.clone(),
                state: FileState { content_hash: copy_opt(&src.content_hash), language_hint: copy_opt(&src.language_hint) },
            };
            let ghost target = files_map(before).insert(src.path@, source_state(*src));
            if p < files.len() && str_eq(files[p].path.as_str(), src.path.as_str()) {
                files.set(p, entry);
                proof {
                    let after = files@;
                    assert(entry_paths(after) =~= entry_paths(before));
                    lemma_files_map(after);
                    assert(entry_paths(before)[p as int] == src.path@);
                    assert(files_map(before).contains_key(src.path@));
                    assert(files_map(after) =~= target) by {
                        assert forall|k: Seq<char>| files_map(after).contains_key(k) == target.contains_key(k) by {
                            assert(files_map(after).contains_key(k) == entry_paths(after).contains(k));
                            assert(files_map(before).contains_key(k) == entry_paths(before).contains(k));
                        }
                        assert forall|k: Seq<char>| #[trigger] files_map(after).contains_key(k) implies files_map(after)[k] == target[k] by {
                            let w = choose|w: int| 0 <= w < entry_paths(after).len() && entry_paths(after)[w] == k;
                            assert(files_map(after)[after[w].path@] == state_view(after[w].state));
                            if w != p {
                                assert(after[w] == before[w]);
                                assert(files_map(before)[before[w].path@] == state_view(before[w].state));
                            }
                        }
                    }
                }
            } else {
                proof {
                    if p < before.len() {
                        lemma_lex_total(before[p as int].path@, src.path@);
                    }
                }
                files.insert(p, entry);
                proof {
                    let after = files@;
                    assert(entry_paths(after) =~= entry_paths(before).insert(p as int, src.path@));
                    assert forall|a: int, b: int| 0 <= a < b < entry_paths(after).len() implies lex_lt(#[trigger] entry_paths(after)[a], #[trigger] entry_paths(after)[b]) by {
                        let ea = entry_paths(after);
                        let eb = entry_paths(before);
                        if b == p {
                            assert(ea[a] == eb[a]);
                        } else if a == p {
                            assert(ea[b] == eb[b - 1]);
                            if b - 1 > p {
                                assert(lex_lt(eb[p as int], eb[b - 1]));
                                lemma_lex_lt_transitive(src.path@, eb[p as int], eb[b - 1]);
                            }
                        } else {
                            let x = if a < p { a } else { a - 1 };
                            let y = if b < p { b } else { b - 1 };
                            assert(ea[a] == eb[x]);
                            assert(ea[b] == eb[y]);
                        }
                    }
                    lemma_files_map(after);
                    assert(!entry_paths(before).contains(src.path@)) by {
                        if entry_paths(before).contains(src.path@) {
                            let w = choose|w: int| 0 <= w < entry_paths(before).len() && entry_paths(before)[w] == src.path@;
                            if w < p {
                                lemma_lex_lt_irreflexive(src.path@);
                            } else if w > p {
                                assert(lex_lt(entry_paths(before)[p as int], entry_paths(before)[w]));
                                lemma_lex_lt_transitive(src.path@, entry_paths(before)[p as int], src.path@);
                                lemma_lex_lt_irreflexive(src.path@);
                            }
                        }
                    }
                    assert(files_map(after) =~= target) by {
                        assert forall|k: Seq<char>| files_map(after).contains_key(k) == target.contains_key(k) by {
                            if entry_paths(before).contains(k) {
                                let w = choose|w: int| 0 <= w < entry_paths(before).len() && entry_paths(before)[w] == k;
                                if w < p {
                                    assert(entry_paths(after)[w] == k);
                                } else {
                                    assert(entry_paths(after)[w + 1] == k);
                                }
                            }
                            if entry_paths(after).contains(k) {
                                let w = choose|w: int| 0 <= w < entry_paths(after).len() && entry_paths(after)[w] == k;
                                if w < p {
                                    assert(entry_paths(before)[w] == k);
                                } else if w > p {
                                    assert(entry_paths(before)[w - 1] == k);
                                }
                            }
                            if k == src.path@ {
                                assert(entry_paths(after)[p as int] == k);
                            }
                        }
                        assert forall|k: Seq<char>| #[trigger] files_map(after).contains_key(k) implies files_map(after)[k] == target[k] by {
                            let w = choose|w: int| 0 <= w < entry_paths(after).len() && entry_paths(after)[w] == k;
                            assert(files_map(after)[after[w].path@] == state_view(after[w].state));
                            if w < p {
                                assert(after[w] == before[w]);
                                assert(files_map(before)[before[w].path@] == state_view(before[w].state));
                            } else if w > p {
                                assert(after[w] == before[w - 1]);
                                assert(files_map(before)[before[w - 1].path@] == state_view(before[w - 1].state));
                            }
                        }
                    }
                }
            }
            proof {
                assert(sources@.subrange(0, i + 1).drop_last() =~= sources@.subrange(0, i as int));
            }
            i = i + 1;
        }
        assert(sources@.subrange(0, i as int) =~= sources@);
        let s = String::from_str(snapshot);
        let g = generation_id_for(snapshot);
        IndexState { schema: String::from_str(INDEX_STATE_SCHEMA), snapshot: Some(s), generation: Some(g), files }
    }
}

/// Paths of the current run whose state differs from the remembered one, or that are new.
pub open spec fn changed_paths(files: Seq<FileEntry>, current: Seq<SourceFile>) -> Set<Seq<char>> {
    Set::new(|p: Seq<char>| exists|i: int| 0 <= i < current.len() && #[trigger] current[i].path@ == p
        && !(files_map(files).contains_key(p) && files_map(files)[p] == source_state(current[i])))
}

/// Paths of the current run whose state is the remembered one.
pub open spec fn unchanged_paths(files: Seq<FileEntry>, current: Seq<SourceFile>) -> Set<Seq<char>> {
    Set::new(|p: Seq<char>| exists|i: int| 0 <= i < current.len() && #[trigger] current[i].path@ == p
        && files_map(files).contains_key(p) && files_map(files)[p] == source_state(current[i]))
}

/// Remembered paths that the current run no longer has.
pub open spec fn removed_paths(files: Seq<FileEntry>, current: Seq<SourceFile>) -> Set<Seq<char>> {
    Set::new(|p: Seq<char>| files_map(files).contains_key(p) && forall|i: int| 0 <= i < current.len() ==> #[trigger] current[i].path@ != p)
}

/// The paths of the current run.
pub open spec fn current_paths(current: Seq<SourceFile>) -> Set<Seq<char>> {
    Set::new(|p: Seq<char>| exists|i: int| 0 <= i < current.len() && #[trigger] current[i].path@ == p)
}

/// No path occurs twice among the sources, as discovery finds them.
pub open spec fn distinct_paths(current: Seq<SourceFile>) -> bool {
    forall|i: int, j: int| 0 <= i < j < current.len() ==> (#[trigger] current[i]).path@ != (#[trigger] current[j]).path@
}

proof fn lemma_sources_map(current: Seq<SourceFile>)
    ensures
        forall|p: Seq<char>| #[trigger] sources_map(current).contains_key(p) <==> current_paths(current).contains(p),
        distinct_paths(current) ==> forall|i: int| 0 <= i < current.len()
            ==> #[trigger] sources_map(current)[current[i].path@] == source_state(current[i]),
    decreases current.len(),
{
    if current.len() > 0 {
        let d = current.drop_last();
        lemma_sources_map(d);
        let last = current.last();
        assert(sources_map(current) == sources_map(d).insert(last.path@, source_state(last)));
        assert(current[current.len() - 1] == last);
        assert forall|p: Seq<char>| #[trigger] sources_map(current).contains_key(p) <==> current_paths(current).contains(p) by {
            if p == last.path@ {
                assert(current[current.len() - 1].path@ == p);
            }
            if current_paths(d).contains(p) {
                let w = choose|w: int| 0 <= w < d.len() && #[trigger] d[w].path@ == p;
                assert(current[w].path@ == p);
            }
            if current_paths(current).contains(p) {
                let w = choose|w: int| 0 <= w < current.len() && #[trigger] current[w].path@ == p;
                if w < d.len() {
                    assert(d[w].path@ == p);
                }
            }
        }
        if distinct_paths(current) {
            assert(distinct_paths(d)) by {
                assert forall|i: int, j: int| 0 <= i < j < d.len() implies (#[trigger] d[i]).path@ != (#[trigger] d[j]).path@ by {
                    assert(d[i] == current[i] && d[j] == current[j]);
                }
            }
            assert forall|i: int| 0 <= i < current.len() implies #[trigger] sources_map(current)[current[i].path@] == source_state(current[i]) by {
                if i < d.len() {
                    assert(d[i] == current[i]);
                    assert(current[i].path@ != current[current.len() - 1].path@);
                }
            }
        }
    }
}

/// Of a run whose files have distinct paths, every file is changed or unchanged and
/// none is both, and no removed path is among them.
pub proof fn lemma_affected_files_partition(files: Seq<FileEntry>, current: Seq<SourceFile>)
    requires
        distinct_paths(current),
    ensures
        changed_paths(files, current).disjoint(unchanged_paths(files, current)),
        changed_paths(files, current).union(unchanged_paths(files, current)) == current_paths(current),
        removed_paths(files, current).disjoint(current_paths(current)),
{
    let c = changed_paths(files, current);
    let u = unchanged_paths(files, current);
    assert forall|p: Seq<char>| !(c.contains(p) && u.contains(p)) by {
        if c.contains(p) && u.contains(p) {
            let i = choose|i: int| 0 <= i < current.len() && #[trigger] current[i].path@ == p
                && !(files_map(files).contains_key(p) && files_map(files)[p] == source_state(current[i]));
            let j = choose|j: int| 0 <= j < current.len() && #[trigger] current[j].path@ == p
                && files_map(files).contains_key(p) && files_map(files)[p] == source_state(current[j]);
            if i < j {
                assert(current[i].path@ != current[j].path@);
            } else if j < i {
                assert(current[j].path@ != current[i].path@);
            }
        }
    }
    assert(c.union(u) =~= current_paths(current)) by {
        assert forall|p: Seq<char>| current_paths(current).contains(p) implies #[trigger] c.union(u).contains(p) by {
            let i = choose|i: int| 0 <= i < current.len() && #[trigger] current[i].path@ == p;
            if files_map(files).contains_key(p) && files_map(files)[p] == source_state(current[i]) {
                assert(u.contains(p));
            } else {
                assert(c.contains(p));
            }
        }
    }
    assert forall|p: Seq<char>| !(removed_paths(files, current).contains(p) && current_paths(current).contains(p)) by {
        if current_paths(current).contains(p) {
            let i = choose|i: int| 0 <= i < current.len() && #[trigger] current[i].path@ == p;
            assert(current[i].path@ == p);
        }
    }
}

/// A state recorded from a run's files (as `from_sources` records them) finds, when the
/// same files come again, every file unchanged, none changed and none removed.
pub proof fn lemma_recorded_state_sees_no_change(files: Seq<FileEntry>, current: Seq<SourceFile>)
    requires
        distinct_paths(current),
        files_map(files) == sources_map(current),
    ensures
        changed_paths(files, current) == Set::<Seq<char>>::empty(),
        unchanged_paths(files, current) == current_paths(current),
        removed_paths(files, current) == Set::<Seq<char>>::empty(),
{
    lemma_sources_map(current);
    assert(changed_paths(files, current) =~= Set::<Seq<char>>::empty()) by {
        assert forall|p: Seq<char>| !#[trigger] changed_paths(files, current).contains(p) by {
            if changed_paths(files, current).contains(p) {
                let i = choose|i: int| 0 <= i < current.len() && #[trigger] current[i].path@ == p
                    && !(files_map(files).contains_key(p) && files_map(files)[p] == source_state(current[i]));
                assert(current_paths(current).contains(p));
                assert(sources_map(current)[current[i].path@] == source_state(current[i]));
            }
        }
    }
    assert(unchanged_paths(files, current) =~= current_paths(current)) by {
        assert forall|p: Seq<char>| current_paths(current).contains(p) implies #[trigger] unchanged_paths(files, current).contains(p) by {
            let i = choose|i: int| 0 <= i < current.len() && #[trigger] current[i].path@ == p;
            assert(sources_map(current)[current[i].path@] == source_state(current[i]));
            assert(sources_map(current).contains_key(p));
        }
    }
    assert(removed_paths(files, current) =~= Set::<Seq<char>>::empty()) by {
        assert forall|p: Seq<char>| !#[trigger] removed_paths(files, current).contains(p) by {
            if removed_paths(files, current).contains(p) {
                assert(sources_map(current).contains_key(p));
                assert(current_paths(current).contains(p));
                let i = choose|i: int| 0 <= i < current.len() && #[trigger] current[i].path@ == p;
                assert(current[i].path@ != p);
            }
        }
    }
}

impl IndexState {
    /// The position of `path` among the files.
    fn lookup(&self, path: &String) -> (r: Option<usize>)
        requires
            wf(*self),
        ensures
            match r {
                None => !files_map(self.files@).contains_key(path@),
                Some(k) => k < self.files@.len() && self.files@[k as int].path@ == path@
                    && files_map(self.files@).contains_key(path@)
                    && files_map(self.files@)[path@] == state_view(self.files@[k as int].state),
            },
    {
        proof {
            lemma_files_map(self.files@);
        }
        let mut i: usize = 0;
        while i < self.files.len()
            invariant
                wf(*self),
                i <= self.files@.len(),
                forall|j: int| 0 <= j < i ==> self.files@[j].path@ != path@,
            decreases self.files.len() - i,
        {
            if str_eq(self.files[i].path.as_str(), path.as_str()) {
                proof {
                    lemma_files_map(self.files@);
                    assert(entry_paths(self.files@)[i as int] == path@);
                }
                return Some(i);
            }
            i = i + 1;
        }
        proof {
            lemma_files_map(self.files@);
            if files_map(self.files@).contains_key(path@) {
                let w = choose|w: int| 0 <= w < entry_paths(self.files@).len() && entry_paths(self.files@)[w] == path@;
                assert(self.files@[w].path@ == path@);
            }
        }
        None
    }

    /// Splits the files of the current run against this state.
    pub fn affected_files(&self, current: &[SourceFile]) -> (r: AffectedFileSet)
        requires
            wf(*self),
        ensures
            is_str_set(r.changed@),
            is_str_set(r.unchanged@),
            is_str_set(r.removed@),
            set_of(r.changed@) == changed_paths(self.files@, current@),
            set_of(r.unchanged@) == unchanged_paths(self.files@, current@),
            set_of(r.removed@) == removed_paths(self.files@, current@),
    {
        let ghost files = self.files@;
        let mut changed = set_new();
        let mut unchanged = set_new();
        let mut seen = set_new();
        let mut i: usize = 0;
        while i < current.len()
            invariant
                wf(*self),
                files == self.files@,
                i <= current@.len(),
                is_str_set(changed@),
                is_str_set(unchanged@),
                is_str_set(seen@),
                set_of(changed@) == Set::new(|p: Seq<char>| exists|j: int| 0 <= j < i && #[trigger] current@[j].path@ == p
                    && !(files_map(files).contains_key(p) && files_map(files)[p] == source_state(current@[j]))),
                set_of(unchanged@) == Set::new(|p: Seq<char>| exists|j: int| 0 <= j < i && #[trigger] current@[j].path@ == p
                    && files_map(files).contains_key(p) && files_map(files)[p] == source_state(current@[j])),
                set_of(seen@) == Set::new(|p: Seq<char>| exists|j: int| 0 <= j < i && #[trigger] current@[j].path@ == p),
            decreases current.len() - i,
        {
            let src = &current[i];
            let found = self.lookup(&src.path);
            let same = match found {
                None => false,
                Some(k) => {
                    let a = opt_eq(&self.files[k].state.content_hash, &src.content_hash);
                    let b = opt_eq(&self.files[k].state.language_hint, &src.language_hint);
                    proof {
                        let sv = state_view(self.files@[k as int].state);
                        let cv = source_state(*src);
                        assert((a && b) == (sv == cv)) by {
                            if sv == cv {
                                assert(sv.0 == cv.0);
                                assert(sv.1 == cv.1);
                            }
                        }
                    }
                    a && b
                },
            };
            proof {
                match found {
                    None => {
                        assert(!files_map(files).contains_key(src.path@));
                    },
                    Some(k) => {
                        assert(files_map(files).contains_key(src.path@));
                        assert(files_map(files)[src.path@] == state_view(files[k as int].state));
                    },
                }
            }
            assert(same == (files_map(files).contains_key(src.path@) && files_map(files)[src.path@] == source_state(*src)));
            let ghost c0 = set_of(changed@);
            let ghost u0 = set_of(unchanged@);
            let ghost s0 = set_of(seen@);
            if same {
                set_insert(&mut unchanged, src.path.clone());
            } else {
                set_insert(&mut changed, src.path.clone());
            }
            set_insert(&mut seen, src.path.clone());
            proof {
                let ii = (i + 1) as int;
                assert(set_of(changed@) =~= Set::new(|p: Seq<char>| exists|j: int| 0 <= j < ii && #[trigger] current@[j].path@ == p
                    && !(files_map(files).contains_key(p) && files_map(files)[p] == source_state(current@[j])))) by {
                    assert forall|p: Seq<char>| set_of(changed@).contains(p) == (exists|j: int| 0 <= j < ii && #[trigger] current@[j].path@ == p
                        && !(files_map(files).contains_key(p) && files_map(files)[p] == source_state(current@[j]))) by {
                        if exists|j: int| 0 <= j < ii && #[trigger] current@[j].path@ == p
                            && !(files_map(files).contains_key(p) && files_map(files)[p] == source_state(current@[j])) {
                            let j = choose|j: int| 0 <= j < ii && #[trigger] current@[j].path@ == p
                                && !(files_map(files).contains_key(p) && files_map(files)[p] == source_state(current@[j]));
                            if j < i {
                                assert(c0.contains(p));
                            }
                        }
                    }
                }
                assert(set_of(unchanged@) =~= Set::new(|p: Seq<char>| exists|j: int| 0 <= j < ii && #[trigger] current@[j].path@ == p
                    && files_map(files).contains_key(p) && files_map(files)[p] == source_state(current@[j]))) by {
                    assert forall|p: Seq<char>| set_of(unchanged@).contains(p) == (exists|j: int| 0 <= j < ii && #[trigger] current@[j].path@ == p
                        && files_map(files).contains_key(p) && files_map(files)[p] == source_state(current@[j])) by {
                        if exists|j: int| 0 <= j < ii && #[trigger] current@[j].path@ == p
                            && files_map(files).contains_key(p) && files_map(files)[p] == source_state(current@[j]) {
                            let j = choose|j: int| 0 <= j < ii && #[trigger] current@[j].path@ == p
                                && files_map(files).contains_key(p) && files_map(files)[p] == source_state(current@[j]);
                            if j < i {
                                assert(u0.contains(p));
                            }
                        }
                    }
                }
                assert(set_of(seen@) =~= Set::new(|p: Seq<char>| exists|j: int| 0 <= j < ii && #[trigger] current@[j].path@ == p)) by {
                    assert forall|p: Seq<char>| set_of(seen@).contains(p) == (exists|j: int| 0 <= j < ii && #[trigger] current@[j].path@ == p) by {
                        if exists|j: int| 0 <= j < ii && #[trigger] current@[j].path@ == p {
                            let j = choose|j: int| 0 <= j < ii && #[trigger] current@[j].path@ == p;
                            if j < i {
                                assert(s0.contains(p));
                            }
                        }
                    }
                }
            }
            i = i + 1;
        }
        let mut removed = set_new();
        let mut k: usize = 0;
        proof {
            lemma_files_map(files);
        }
        while k < self.files.len()
            invariant
                wf(*self),
                files == self.files@,
                i == current@.len(),
                k <= files.len(),
                is_str_set(removed@),
                set_of(seen@) == Set::new(|p: Seq<char>| exists|j: int| 0 <= j < i && #[trigger] current@[j].path@ == p),
                set_of(removed@) == Set::new(|p: Seq<char>| entry_paths(files).take(k as int).contains(p)
                    && forall|j: int| 0 <= j < current@.len() ==> #[trigger] current@[j].path@ != p),
            decreases self.files.len() - k,
        {
            let path = &self.files[k].path;
            let gone = !set_contains(&seen, path);
            let ghost r0 = set_of(removed@);
            if gone {
                set_insert(&mut removed, path.clone());
            }
            proof {
                let kk = (k + 1) as int;
                assert(entry_paths(files).take(kk) =~= entry_paths(files).take(k as int).push(path@));
                assert(set_of(removed@) =~= Set::new(|p: Seq<char>| entry_paths(files).take(kk).contains(p)
                    && forall|j: int| 0 <= j < current@.len() ==> #[trigger] current@[j].path@ != p)) by {
                    assert forall|p: Seq<char>| set_of(removed@).contains(p) == (entry_paths(files).take(kk).contains(p)
                        && forall|j: int| 0 <= j < current@.len() ==> #[trigger] current@[j].path@ != p) by {
                        let none_p = forall|j: int| 0 <= j < current@.len() ==> #[trigger] current@[j].path@ != p;
                        assert(set_of(seen@).contains(p) == !none_p);
                        if p == path@ {
                            assert(entry_paths(files).take(kk)[k as int] == p);
                            assert(gone == none_p);
                            if r0.contains(p) {
                                assert(none_p);
                            }
                        } else {
                            if entry_paths(files).take(kk).contains(p) {
                                let w = choose|w: int| 0 <= w < kk && entry_paths(files).take(kk)[w] == p;
                                assert(w != k);
                                assert(entry_paths(files).take(k as int)[w] == p);
                            }
                            if entry_paths(files).take(k as int).contains(p) {
                                let w = choose|w: int| 0 <= w < k && entry_paths(files).take(k as int)[w] == p;
                                assert(entry_paths(files).take(kk)[w] == p);
                            }
                        }
                    }
                }
            }
            k = k + 1;
        }
        proof {
            assert(entry_paths(files).take(k as int) =~= entry_paths(files));
            assert(set_of(changed@) =~= changed_paths(files, current@));
            assert(set_of(unchanged@) =~= unchanged_paths(files, current@));
            assert(set_of(removed@) =~= removed_paths(files, current@));
        }
        AffectedFileSet { changed, unchanged, removed }
    }
}

/// Where an index state is kept.
pub struct IndexStateStore {
    path: String,
}

/// A published index-state replacement that keeps the previous file, where there was
/// one, until it is finalized or rolled back.
pub struct PreparedIndexState {
    pub path: String,
    pub backup: Option<String>,
}

/// The name of the staged copy of state file `name` for a publication.
pub open spec fn staging_name(name: Seq<char>, publication_id: Seq<char>) -> Seq<char> {
    "."@ + name + ".staging-"@ + publication_id
}

/// The name the previous state file `name` is kept under during a publication.
pub open spec fn backup_name(name: Seq<char>, publication_id: Seq<char>) -> Seq<char> {
    "."@ + name + ".backup-"@ + publication_id
}

/// Names the staged copy of a state file.
pub fn staging_file_name(name: &str, publication_id: &str) -> (r: String)
    ensures
        r@ == staging_name(name@, publication_id@),
{
    let mut r = String::from_str(".");
    r.append(name);
    r.append(".staging-");
    r.append(publication_id);
    r
}

/// Names the kept copy of the previous state file.
pub fn backup_file_name(name: &str, publication_id: &str) -> (r: String)
    ensures
        r@ == backup_name(name@, publication_id@),
{
    let mut r = String::from_str(".");
    r.append(name);
    r.append(".backup-");
    r.append(publication_id);
    r
}

impl IndexStateStore {
    /// The path the store keeps its state at.
    pub closed spec fn location(self) -> Seq<char> {
        self.path@
    }

    /// A store kept at `path`.
    pub fn new(path: String) -> (r: Self)
        ensures
            r.location() == path@,
    {
        IndexStateStore { path }
    }

    /// The path the store keeps its state at.
    pub fn path(&self) -> (r: &String)
        ensures
            r@ == self.location(),
    {
        &self.path
    }

    /// The state a load yields from what the store's file held: nothing read, or a state
    /// of another schema, loads as the empty state.
    pub fn load(&self, stored: Option<IndexState>) -> (r: IndexState)
        ensures
            match stored {
                Some(s) => if s.schema@ == INDEX_STATE_SCHEMA@ { r == s } else {
                    r.schema@ == INDEX_STATE_SCHEMA@ && r.snapshot is None && r.generation is None && r.files@.len() == 0
                },
                None => r.schema@ == INDEX_STATE_SCHEMA@ && r.snapshot is None && r.generation is None && r.files@.len() == 0,
            },
    {
        match stored {
            None => IndexState::empty(),
            Some(s) => {
                if str_eq(s.schema.as_str(), INDEX_STATE_SCHEMA) {
                    s
                } else {
                    IndexState::empty()
                }
            },
        }
    }
}

} // verus!
