use vstd::prelude::*;

use crate::diagnostic::Diagnostic;
use crate::source::{FileId, Span};
use crate::text::{push_str, string_from_chars};

verus! {

/// How far the loading of a `.mal` file has got: its requirements are being loaded, or it is
/// done and has its identity.
#[derive(Clone, Copy, Debug, PartialEq, Eq, Structural)]
pub enum LoadState {
    Loading,
    Loaded(FileId),
}

/// A `.mal` file that a file requires, and where it says so.
#[derive(Clone, Copy, Debug, PartialEq, Eq, Structural)]
pub struct SourceRequirement {
    pub target: FileId,
    pub span: Span,
}

/// What a requirement path names, by its extension.
#[derive(Clone, Copy, Debug, PartialEq, Eq, Structural)]
pub enum RequirementKind {
    Mal,
    C,
}

/// The decisions of loading a source graph: which `.mal` files are loading or loaded under which
/// path, the requirement edges of each loaded file, and the `.c` sources in the order they were
/// first required. Reading, parsing and resolving paths are the caller's.
pub struct GraphBuilder {
    paths: Vec<Vec<char>>,
    states: Vec<LoadState>,
    requirements: Vec<Vec<SourceRequirement>>,
    c_sources: Vec<Vec<char>>,
}

/// The first position of `path` among `paths`, if it is there.
pub open spec fn position_of(paths: Seq<Seq<char>>, path: Seq<char>) -> Option<int>
    decreases paths.len(),
{
    if paths.len() == 0 {
        None
    } else {
        match position_of(paths.drop_last(), path) {
            Some(k) => Some(k),
            None => if paths.last() == path {
                Some(paths.len() - 1)
            } else {
                None
            },
        }
    }
}

/// The characters of each path.
pub open spec fn path_texts(paths: Seq<Vec<char>>) -> Seq<Seq<char>> {
    paths.map_values(|path: Vec<char>| path@)
}

/// The extension of the last component of `path`: what follows its last `.`, unless that `.`
/// starts the component.
pub open spec fn extension_of(path: Seq<char>) -> Option<Seq<char>> {
    let name_start = match last_index(path, '/') {
        Some(k) => k + 1,
        None => 0,
    };
    let name = path.subrange(name_start, path.len() as int);
    match last_index(name, '.') {
        Some(k) => if k == 0 || name == ".."@ {
            None
        } else {
            Some(name.subrange(k + 1, name.len() as int))
        },
        None => None,
    }
}

/// The last index of `c` in `text`.
pub open spec fn last_index(text: Seq<char>, c: char) -> Option<int>
    decreases text.len(),
{
    if text.len() == 0 {
        None
    } else if text.last() == c {
        Some(text.len() - 1)
    } else {
        last_index(text.drop_last(), c)
    }
}

/// A requirement names a `.mal` file or a `.c` source by its extension.
pub open spec fn kind_of(path: Seq<char>) -> Option<RequirementKind> {
    match extension_of(path) {
        Some(extension) => if extension == "mal"@ {
            Some(RequirementKind::Mal)
        } else if extension == "c"@ {
            Some(RequirementKind::C)
        } else {
            None
        },
        None => None,
    }
}

fn same_text(a: &Vec<char>, b: &Vec<char>) -> (same: bool)
    ensures
        same == (a@ == b@),
{
    if a.len() != b.len() {
        return false;
    }
    let mut k: usize = 0;
    while k < a.len()
        invariant
            a@.len() == b@.len(),
            k <= a@.len(),
            forall|i: int| 0 <= i < k ==> a@[i] == b@[i],
        decreases a@.len() - k,
    {
        if a[k] != b[k] {
            return false;
        }
        k = k + 1;
    }
    assert(a@ =~= b@);
    true
}

fn last_index_of(text: &Vec<char>, c: char, upto: usize) -> (found: Option<usize>)
    requires
        upto <= text@.len(),
    ensures
        found matches Some(k) ==> last_index(text@.subrange(0, upto as int), c) == Some(k as int),
        found is None ==> last_index(text@.subrange(0, upto as int), c) is None,
    decreases upto,
{
    if upto == 0 {
        return None;
    }
    assert(text@.subrange(0, upto as int).drop_last() =~= text@.subrange(0, upto - 1));
    if text[upto - 1] == c {
        Some(upto - 1)
    } else {
        last_index_of(text, c, upto - 1)
    }
}

proof fn lemma_last_index_bound(text: Seq<char>, c: char)
    ensures
        last_index(text, c) matches Some(k) ==> 0 <= k < text.len() && text[k] == c,
    decreases text.len(),
{
    if text.len() > 0 {
        lemma_last_index_bound(text.drop_last(), c);
    }
}

/// The last `c` in `text` is the one at `j` when none follows it; when none is at `j` or after,
/// the last one, if any, is before `j`.
proof fn lemma_last_index_after(text: Seq<char>, c: char, j: int)
    requires
        0 <= j <= text.len(),
        forall|k: int| j < k < text.len() ==> text[k] != c,
    ensures
        j < text.len() && text[j] == c ==> last_index(text, c) == Some(j),
        (j == text.len() || text[j] != c) && last_index(text, c) is Some ==> last_index(text, c)->0
            < j,
    decreases text.len(),
{
    lemma_last_index_bound(text, c);
    if text.len() > 0 && text.len() - 1 > j {
        lemma_last_index_after(text.drop_last(), c, j);
    } else if text.len() > 0 && text.len() - 1 == j && text[j] != c {
        lemma_last_index_bound(text.drop_last(), c);
    }
}

/// A path whose last component ends in `.` and `extension`, with something before the `.`: its
/// extension is `extension`.
proof fn lemma_extension_suffix(path: Seq<char>, extension: Seq<char>)
    requires
        extension.len() >= 1,
        path.len() >= extension.len() + 2,
        path[path.len() - extension.len() - 1] == '.',
        path[path.len() - extension.len() - 2] != '/',
        forall|k: int| 0 <= k < extension.len() ==> extension[k] != '.' && extension[k] != '/',
        path.subrange(path.len() - extension.len(), path.len() as int) == extension,
    ensures
        extension_of(path) == Some(extension),
{
    let n = path.len() as int;
    let dot = n - extension.len() - 1;
    assert forall|k: int| dot - 1 <= k < n implies path[k] != '/' by {
        if k > dot {
            assert(path[k] == extension[k - dot - 1]);
        }
    }
    lemma_last_index_after(path, '/', dot - 1);
    let name_start = match last_index(path, '/') {
        Some(k) => k + 1,
        None => 0,
    };
    lemma_last_index_bound(path, '/');
    let name = path.subrange(name_start, n);
    assert forall|k: int| dot - name_start < k < name.len() implies name[k] != '.' by {
        assert(name[k] == extension[k + name_start - dot - 1]);
    }
    lemma_last_index_after(name, '.', dot - name_start);
    assert(name.len() >= 3);
    assert(name != ".."@) by {
        reveal_strlit("..");
    }
    assert(name.subrange(dot - name_start + 1, name.len() as int) =~= extension);
}

/// A requirement path is read by its extension: a path whose last component ends in `.mal` names
/// a `.mal` file and one that ends in `.c` a C source, wherever the component is.
pub proof fn lemma_requirement_kind_by_suffix(path: Seq<char>)
    requires
        path.len() >= 3,
    ensures
        path.len() >= 5 && path.subrange(path.len() - 4, path.len() as int) == ".mal"@
            && path[path.len() - 5] != '/' ==> kind_of(path) == Some(RequirementKind::Mal),
        path.subrange(path.len() - 2, path.len() as int) == ".c"@ && path[path.len() - 3] != '/'
            ==> kind_of(path) == Some(RequirementKind::C),
{
    reveal_strlit(".mal");
    reveal_strlit("mal");
    reveal_strlit(".c");
    reveal_strlit("c");
    let n = path.len() as int;
    if n >= 5 && path.subrange(n - 4, n) == ".mal"@ && path[n - 5] != '/' {
        assert(path[n - 4] == ".mal"@[0]);
        assert(path.subrange(n - 3, n) =~= "mal"@) by {
            assert forall|k: int| 0 <= k < 3 implies path.subrange(n - 3, n)[k] == "mal"@[k] by {
                assert(path.subrange(n - 3, n)[k] == path.subrange(n - 4, n)[k + 1]);
            }
        }
        lemma_extension_suffix(path, "mal"@);
    }
    if path.subrange(n - 2, n) == ".c"@ && path[n - 3] != '/' {
        assert(path[n - 2] == ".c"@[0]);
        assert(path.subrange(n - 1, n) =~= "c"@) by {
            assert(path.subrange(n - 1, n)[0] == path.subrange(n - 2, n)[1]);
        }
        lemma_extension_suffix(path, "c"@);
        assert("c"@ != "mal"@) by {
            assert("c"@.len() != "mal"@.len());
        }
    }
}

/// What a requirement path names: a `.mal` file or a `.c` source, by its extension; `None` for
/// any other path.
pub fn requirement_kind(path: &Vec<char>) -> (kind: Option<RequirementKind>)
    ensures
        kind == kind_of(path@),
{
    let length = path.len();
    assert(path@.subrange(0, length as int) =~= path@);
    let name_start = match last_index_of(path, '/', length) {
        Some(k) => {
            proof {
                lemma_last_index_bound(path@, '/');
            }
            k + 1
        },
        None => 0,
    };
    let mut name: Vec<char> = Vec::new();
    let mut k = name_start;
    while k < length
        invariant
            name_start <= k <= length,
            length == path@.len(),
            name@ == path@.subrange(name_start as int, k as int),
        decreases length - k,
    {
        name.push(path[k]);
        k = k + 1;
        assert(name@ =~= path@.subrange(name_start as int, k as int));
    }
    assert(name@.subrange(0, name@.len() as int) =~= name@);
    let dot = last_index_of(&name, '.', name.len());
    let dots: Vec<char> = vec!['.', '.'];
    let extension = match dot {
        Some(at) => {
            proof {
                lemma_last_index_bound(name@, '.');
                reveal_strlit("..");
            }
            if at == 0 || same_text(&name, &dots) {
                assert(dots@ =~= ".."@);
                None
            } else {
                assert(dots@ =~= ".."@);
                let mut extension: Vec<char> = Vec::new();
                let mut j = at + 1;
                while j < name.len()
                    invariant
                        at + 1 <= j <= name@.len(),
                        extension@ == name@.subrange(at + 1, j as int),
                    decreases name@.len() - j,
                {
                    extension.push(name[j]);
                    j = j + 1;
                    assert(extension@ =~= name@.subrange(at + 1, j as int));
                }
                Some(extension)
            }
        },
        None => None,
    };
    match extension {
        Some(extension) => {
            let mal: Vec<char> = vec!['m', 'a', 'l'];
            let c: Vec<char> = vec!['c'];
            proof {
                reveal_strlit("mal");
                reveal_strlit("c");
                assert(mal@ =~= "mal"@);
                assert(c@ =~= "c"@);
            }
            if same_text(&extension, &mal) {
                Some(RequirementKind::Mal)
            } else if same_text(&extension, &c) {
                Some(RequirementKind::C)
            } else {
                None
            }
        },
        None => None,
    }
}

/// The error for a requirement path with another extension than `.mal` or `.c`.
pub fn invalid_extension(span: Span) -> (found: Diagnostic)
    ensures
        found.message@ == "invalid requirement path extension"@,
        found.primary matches Some(label) && label.span == span && label.message@
            == "expected a `.mal` or `.c` path"@,
        found.notes@.len() == 0,
{
    Diagnostic::error("invalid requirement path extension").with_primary(
        span,
        "expected a `.mal` or `.c` path",
    )
}

/// The error for a requirement that reaches the file at `path` while that file is still loading.
pub fn cyclic_requirement(path: &str, span: Span) -> (found: Diagnostic)
    ensures
        found.message@ == "cyclic `.mal` requirement"@,
        found.primary matches Some(label) && label.span == span && label.message@
            == "this reaches `"@ + path@ + "` while it is still loading"@,
        found.notes@.len() == 0,
{
    let mut text: Vec<char> = Vec::new();
    push_str(&mut text, "this reaches `");
    push_str(&mut text, path);
    push_str(&mut text, "` while it is still loading");
    let label = string_from_chars(&text);
    Diagnostic::error("cyclic `.mal` requirement").with_primary(span, label.as_str())
}

impl GraphBuilder {
    pub closed spec fn spec_paths(&self) -> Seq<Seq<char>> {
        path_texts(self.paths@)
    }

    pub closed spec fn spec_states(&self) -> Seq<LoadState> {
        self.states@
    }

    /// The requirement edges of each file started so far, by file identity.
    pub closed spec fn spec_requirements(&self) -> Seq<Seq<SourceRequirement>> {
        self.requirements@.map_values(|edges: Vec<SourceRequirement>| edges@)
    }

    /// The `.c` sources in the order they were first required.
    pub closed spec fn spec_c_sources(&self) -> Seq<Seq<char>> {
        path_texts(self.c_sources@)
    }

    pub closed spec fn wf(&self) -> bool {
        self.paths@.len() == self.states@.len()
    }

    /// Where loading the file at `path` has got: `None` before it starts.
    pub open spec fn spec_state(&self, path: Seq<char>) -> Option<LoadState> {
        match position_of(self.spec_paths(), path) {
            Some(k) => Some(self.spec_states()[k]),
            None => None,
        }
    }

    /// Nothing loaded yet.
    pub fn new() -> (builder: GraphBuilder)
        ensures
            builder.wf(),
            builder.spec_paths().len() == 0,
            builder.spec_requirements().len() == 0,
            builder.spec_c_sources().len() == 0,
    {
        let builder = GraphBuilder {
            paths: Vec::new(),
            states: Vec::new(),
            requirements: Vec::new(),
            c_sources: Vec::new(),
        };
        proof {
            assert(builder.spec_paths() =~= Seq::<Seq<char>>::empty());
            assert(builder.spec_requirements() =~= Seq::<Seq<SourceRequirement>>::empty());
            assert(builder.spec_c_sources() =~= Seq::<Seq<char>>::empty());
        }
        builder
    }

    /// Where loading the file at `path` has got.
    pub fn state(&self, path: &Vec<char>) -> (found: Option<LoadState>)
        requires
            self.wf(),
        ensures
            found == self.spec_state(path@),
    {
        let mut k: usize = 0;
        while k < self.paths.len()
            invariant
                self.wf(),
                k <= self.paths@.len(),
                position_of(self.spec_paths().take(k as int), path@) is None,
            decreases self.paths@.len() - k,
        {
            proof {
                let prefix = self.spec_paths().take(k + 1);
                assert(prefix.drop_last() =~= self.spec_paths().take(k as int));
            }
            if same_text(&self.paths[k], path) {
                proof {
                    lemma_position_prefix(self.spec_paths(), path@, k + 1);
                }
                return Some(self.states[k]);
            }
            k = k + 1;
        }
        proof {
            assert(self.spec_paths().take(k as int) =~= self.spec_paths());
        }
        None
    }

    /// Starts loading the file at `path`, which has not started: it takes the next file
    /// identity and has no requirement edges yet.
    pub fn start(&mut self, path: Vec<char>) -> (id: FileId)
        requires
            old(self).wf(),
            old(self).spec_state(path@) is None,
            old(self).spec_requirements().len() < u32::MAX,
        ensures
            final(self).wf(),
            id.0 == old(self).spec_requirements().len(),
            final(self).spec_paths() == old(self).spec_paths().push(path@),
            final(self).spec_states() == old(self).spec_states().push(LoadState::Loading),
            final(self).spec_requirements() == old(self).spec_requirements().push(Seq::empty()),
            final(self).spec_c_sources() == old(self).spec_c_sources(),
    {
        let id = FileId::new(self.requirements.len() as u32);
        let ghost before = self.spec_requirements();
        let ghost paths_before = self.spec_paths();
        self.paths.push(path);
        self.states.push(LoadState::Loading);
        self.requirements.push(Vec::new());
        proof {
            assert(self.spec_requirements() =~= before.push(Seq::empty()));
            assert(self.spec_paths() =~= paths_before.push(path@));
        }
        id
    }

    /// Records that `file` requires `target` at `span`, unless it already requires `target`.
    pub fn require(&mut self, file: FileId, target: FileId, span: Span)
        requires
            old(self).wf(),
            file.0 < old(self).spec_requirements().len(),
        ensures
            final(self).wf(),
            final(self).spec_paths() == old(self).spec_paths(),
            final(self).spec_states() == old(self).spec_states(),
            final(self).spec_c_sources() == old(self).spec_c_sources(),
            final(self).spec_requirements() == old(self).spec_requirements().update(
                file.0 as int,
                if exists|i: int|
                    0 <= i < old(self).spec_requirements()[file.0 as int].len()
                        && (#[trigger] old(self).spec_requirements()[file.0 as int][i]).target
                        == target {
                    old(self).spec_requirements()[file.0 as int]
                } else {
                    old(self).spec_requirements()[file.0 as int].push(
                        SourceRequirement { target, span },
                    )
                },
            ),
    {
        let index = file.0 as usize;
        let ghost before = self.spec_requirements();
        let mut k: usize = 0;
        while k < self.requirements[index].len()
            invariant
                old(self).wf(),
                self.paths@ == old(self).paths@,
                self.states@ == old(self).states@,
                self.requirements@ == old(self).requirements@,
                self.c_sources@ == old(self).c_sources@,
                index == file.0,
                index < self.requirements@.len(),
                before == self.spec_requirements(),
                k <= self.requirements@[index as int]@.len(),
                forall|i: int| 0 <= i < k ==> self.requirements@[index as int]@[i].target != target,
            decreases self.requirements@[index as int]@.len() - k,
        {
            if self.requirements[index][k].target == target {
                proof {
                    assert(before == old(self).spec_requirements());
                    assert(self.requirements@[index as int]@ == before[index as int]);
                    assert(old(self).spec_requirements()[file.0 as int][k as int].target == target);
                    assert(before.update(index as int, before[index as int]) =~= before);
                }
                return ;
            }
            k = k + 1;
        }
        let mut edges = self.requirements.remove(index);
        edges.push(SourceRequirement { target, span });
        self.requirements.insert(index, edges);
        proof {
            assert(self.spec_requirements() =~= before.update(
                index as int,
                before[index as int].push(SourceRequirement { target, span }),
            ));
        }
    }

    /// Adds the `.c` source at `path` unless it was required before; says whether it was new.
    pub fn add_c_source(&mut self, path: Vec<char>) -> (added: bool)
        requires
            old(self).wf(),
        ensures
            final(self).wf(),
            added == !old(self).spec_c_sources().contains(path@),
            final(self).spec_c_sources() == if added {
                old(self).spec_c_sources().push(path@)
            } else {
                old(self).spec_c_sources()
            },
            final(self).spec_paths() == old(self).spec_paths(),
            final(self).spec_states() == old(self).spec_states(),
            final(self).spec_requirements() == old(self).spec_requirements(),
    {
        let ghost before = self.spec_c_sources();
        let mut k: usize = 0;
        while k < self.c_sources.len()
            invariant
                old(self).wf(),
                self.paths@ == old(self).paths@,
                self.states@ == old(self).states@,
                self.requirements@ == old(self).requirements@,
                self.c_sources@ == old(self).c_sources@,
                before == self.spec_c_sources(),
                k <= self.c_sources@.len(),
                forall|i: int| 0 <= i < k ==> before[i] != path@,
            decreases self.c_sources@.len() - k,
        {
            if same_text(&self.c_sources[k], &path) {
                proof {
                    assert(before[k as int] == path@);
                }
                return false;
            }
            k = k + 1;
        }
        self.c_sources.push(path);
        proof {
            assert(self.spec_c_sources() =~= before.push(path@));
        }
        true
    }

    /// The requirement edges of `file`, in the order they were first required.
    pub fn requirements_of(&self, file: FileId) -> (edges: &[SourceRequirement])
        requires
            file.0 < self.spec_requirements().len(),
        ensures
            edges@ == self.spec_requirements()[file.0 as int],
    {
        self.requirements[file.0 as usize].as_slice()
    }

    /// The `.c` sources, in the order they were first required.
    pub fn c_sources(&self) -> (sources: &Vec<Vec<char>>)
        ensures
            path_texts(sources@) == self.spec_c_sources(),
    {
        &self.c_sources
    }

    /// Records that the file at `path`, which is loading, is loaded with identity `id`.
    pub fn finish(&mut self, path: &Vec<char>, id: FileId)
        requires
            old(self).wf(),
            old(self).spec_state(path@) is Some,
        ensures
            final(self).wf(),
            final(self).spec_paths() == old(self).spec_paths(),
            final(self).spec_state(path@) == Some(LoadState::Loaded(id)),
            final(self).spec_states() == old(self).spec_states().update(
                position_of(old(self).spec_paths(), path@)->0,
                LoadState::Loaded(id),
            ),
            final(self).spec_requirements() == old(self).spec_requirements(),
            final(self).spec_c_sources() == old(self).spec_c_sources(),
    {
        let mut k: usize = 0;
        while k < self.paths.len()
            invariant
                self.wf(),
                self.spec_paths() == old(self).spec_paths(),
                self.states@ == old(self).states@,
                self.requirements@ == old(self).requirements@,
                self.c_sources@ == old(self).c_sources@,
                k <= self.paths@.len(),
                position_of(self.spec_paths().take(k as int), path@) is None,
            decreases self.paths@.len() - k,
        {
            proof {
                let prefix = self.spec_paths().take(k + 1);
                assert(prefix.drop_last() =~= self.spec_paths().take(k as int));
            }
            if same_text(&self.paths[k], path) {
                proof {
                    lemma_position_prefix(self.spec_paths(), path@, k + 1);
                }
                self.states.set(k, LoadState::Loaded(id));
                return ;
            }
            k = k + 1;
        }
        proof {
            assert(self.spec_paths().take(k as int) =~= self.spec_paths());
        }
    }
}

/// Where `path` first appears among the first `n` paths, when it is at `n - 1` and not before.
proof fn lemma_position_prefix(paths: Seq<Seq<char>>, path: Seq<char>, n: int)
    requires
        0 < n <= paths.len(),
        position_of(paths.take(n - 1), path) is None,
        paths[n - 1] == path,
    ensures
        position_of(paths, path) == Some(n - 1),
    decreases paths.len(),
{
    let prefix = paths.take(n);
    assert(prefix.drop_last() =~= paths.take(n - 1));
    assert(position_of(prefix, path) == Some(n - 1));
    if n < paths.len() {
        assert(paths.take(n) =~= paths.drop_last().take(n));
        assert(paths.drop_last().take(n - 1) =~= paths.take(n - 1));
        lemma_position_prefix(paths.drop_last(), path, n);
        assert(position_of(paths.drop_last(), path) == Some(n - 1));
    } else {
        assert(prefix =~= paths);
    }
}

} // verus!
