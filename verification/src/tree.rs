//! The source tree: building it from the root, flattening it, and telling
//! whether it is out of date.
use crate::branch::Branch;
use crate::error::{Error, ErrorView, IoFailure};
use crate::files::{lemma_loaded_path_is_opened, opened_path, opened_paths, EntryView, FileTable};
use crate::forest::{lemma_node_has_path, lemma_with, Forest, SourceMap};
use crate::preprocess::{load_source, probe_step, search_from, AnnotatedGLSL, ModTime, Source, Step};
use crate::error::ProbeView;
use crate::text::{clone_slice, decimal, decimal_string, join_lines, joined};
use vstd::prelude::*;
use vstd::seq_lib::seq_to_set_is_finite;

verus! {

broadcast use {vstd::string::group_string_axioms, vstd::std_specs::hash::group_hash_axioms};

/// The number of files of the table that are not on the branch: what a
/// build can still descend into.
pub open spec fn unvisited(table: Seq<EntryView>, branch: Seq<Seq<char>>) -> nat {
    opened_paths(table).difference(branch.to_set()).len()
}

/// A file that loads is one of the files of the table.
pub proof fn lemma_loaded_is_opened(table: Seq<EntryView>, name: Seq<char>, dirs: Seq<Seq<char>>)
    requires
        load_source(table, name, dirs) is Ok,
    ensures
        opened_paths(table).contains(load_source(table, name, dirs)->Ok_0.path),
{
    let direct = ProbeView { dir: None, name };
    match probe_step(table, direct) {
        Step::Found(_) => {
            lemma_loaded_path_is_opened(table, direct);
        },
        Step::Stop(_) => {},
        Step::Next(cause) => {
            lemma_searched_is_opened(table, name, dirs, 0, cause);
        },
    }
}

proof fn lemma_searched_is_opened(
    table: Seq<EntryView>,
    name: Seq<char>,
    dirs: Seq<Seq<char>>,
    k: int,
    cause: Seq<char>,
)
    requires
        search_from(table, name, dirs, k, cause) is Ok,
    ensures
        opened_paths(table).contains(search_from(table, name, dirs, k, cause)->Ok_0.path),
    decreases dirs.len() - k,
{
    if 0 <= k < dirs.len() {
        let probe = ProbeView { dir: Some(dirs[k]), name };
        match probe_step(table, probe) {
            Step::Found(_) => {
                lemma_loaded_path_is_opened(table, probe);
            },
            Step::Stop(_) => {},
            Step::Next(next) => {
                lemma_searched_is_opened(table, name, dirs, k + 1, next);
            },
        }
    }
}

/// Descending into a file of the table that is not on the branch leaves
/// fewer files to descend into.
pub proof fn lemma_unvisited_decreases(
    table: Seq<EntryView>,
    branch: Seq<Seq<char>>,
    path: Seq<char>,
)
    requires
        opened_paths(table).contains(path),
        !branch.contains(path),
    ensures
        unvisited(table, branch.push(path)) < unvisited(table, branch),
{
    let opened = opened_paths(table);
    let before = opened.difference(branch.to_set());
    let after = opened.difference(branch.push(path).to_set());
    assert forall|p: Seq<char>| after.contains(p) <==> before.remove(path).contains(p) by {
        if branch.contains(p) {
            let i = choose|i: int| 0 <= i < branch.len() && branch[i] == p;
            assert(branch.push(path)[i] == p);
        }
        if p == path {
            assert(branch.push(path)[branch.len() as int] == path);
        }
    }
    assert(after =~= before.remove(path));
}

/// The directories in which a file is searched: none for the root, which
/// is the file with nothing above it on the branch.
pub open spec fn dirs_for(branch: Seq<Seq<char>>, dirs: Seq<Seq<char>>) -> Seq<Seq<char>> {
    if branch.len() == 0 {
        Seq::empty()
    } else {
        dirs
    }
}

/// Whether a file declares another version than the one it is held to.
pub open spec fn version_differs(version: Option<usize>, src: Source) -> bool {
    version is Some && src.declared() is Some && version->0 != src.declared()->0
}

/// The expansion of the file that `name` leads to, below the files on
/// `branch`: the file is loaded, refused if it is on the branch already or
/// declares another version than `version`, entered into the forest, and
/// then each file it includes is expanded in the order of the lines.
///
/// The root is expanded with an empty branch. What it declares, or
/// `default_version` where it declares nothing, is the version that
/// every file below is held to.
pub open spec fn expand(
    table: Seq<EntryView>,
    dirs: Seq<Seq<char>>,
    default_version: usize,
    version: Option<usize>,
    branch: Seq<Seq<char>>,
    name: Seq<char>,
    forest: Forest,
) -> Result<Forest, ErrorView>
    decreases unvisited(table, branch), 0nat, 0nat,
{
    match load_source(table, name, dirs_for(branch, dirs)) {
        Err(error) => Err(error),
        Ok(src) => {
            if branch.contains(src.path) {
                Err(ErrorView::Cycle(branch.push(src.path)))
            } else if version_differs(version, src) {
                Err(
                    ErrorView::VersionMismatch {
                        root_version: version->0,
                        src_version: src.declared()->0,
                        src_path: name,
                    },
                )
            } else {
                let held_to = if branch.len() == 0 {
                    Some(src.version_or(default_version))
                } else {
                    version
                };
                proof {
                    lemma_loaded_is_opened(table, name, dirs_for(branch, dirs));
                    lemma_unvisited_decreases(table, branch, src.path);
                }
                expand_all(
                    table,
                    dirs,
                    default_version,
                    held_to,
                    branch.push(src.path),
                    src.targets(),
                    0,
                    forest.with(name, src),
                )
            }
        },
    }
}

/// The expansion of the files that `targets` lead to, from the `k`th on,
/// one after the other; the first that fails ends it.
pub open spec fn expand_all(
    table: Seq<EntryView>,
    dirs: Seq<Seq<char>>,
    default_version: usize,
    version: Option<usize>,
    branch: Seq<Seq<char>>,
    targets: Seq<Seq<char>>,
    k: int,
    forest: Forest,
) -> Result<Forest, ErrorView>
    decreases unvisited(table, branch), 1nat, targets.len() - k,
{
    if k < 0 || k >= targets.len() {
        Ok(forest)
    } else {
        match expand(table, dirs, default_version, version, branch, targets[k], forest) {
            Err(error) => Err(error),
            Ok(next) => expand_all(
                table,
                dirs,
                default_version,
                version,
                branch,
                targets,
                k + 1,
                next,
            ),
        }
    }
}

/// The forest of the tree with the root `root`: the expansion of the root,
/// unless there is none.
pub open spec fn build_forest(
    table: Seq<EntryView>,
    root: Seq<char>,
    dirs: Seq<Seq<char>>,
    default_version: usize,
) -> Result<Forest, ErrorView> {
    if root.len() == 0 {
        Err(ErrorView::MissingRoot)
    } else {
        expand(table, dirs, default_version, None, Seq::empty(), root, Forest::empty())
    }
}

/// Whether the file under `path` is among those seen.
fn was_seen(seen: &Vec<String>, path: &String) -> (found: bool)
    ensures
        found == seen.deep_view().contains(path@),
{
    let mut i: usize = 0;
    while i < seen.len()
        invariant
            i <= seen.len(),
            forall|k: int| 0 <= k < i ==> seen.deep_view()[k] != path@,
        decreases seen.len() - i,
    {
        assert(seen.deep_view()[i as int] == seen[i as int]@);
        if seen[i] == *path {
            return true;
        }
        i = i + 1;
    }
    false
}

/// Expanding keeps every link and adds one for the name expanded, and in a
/// forest whose links all lead to files it leaves no link without its file.
pub proof fn lemma_expand_linked(
    table: Seq<EntryView>,
    dirs: Seq<Seq<char>>,
    default_version: usize,
    version: Option<usize>,
    branch: Seq<Seq<char>>,
    name: Seq<char>,
    forest: Forest,
)
    requires
        forest.linked(),
    ensures
        expand(table, dirs, default_version, version, branch, name, forest) matches Ok(out) ==> {
            &&& out.linked()
            &&& out.target(name) is Some
            &&& forall|other: Seq<char>| #[trigger]
                forest.target(other) is Some ==> out.target(other) is Some
        },
    decreases unvisited(table, branch), 0nat, 0nat,
{
    match load_source(table, name, dirs_for(branch, dirs)) {
        Err(_) => {},
        Ok(src) => {
            if !branch.contains(src.path) && !version_differs(version, src) {
                let held_to = if branch.len() == 0 {
                    Some(src.version_or(default_version))
                } else {
                    version
                };
                let entered = forest.with(name, src);
                lemma_with(forest, name, src);
                lemma_loaded_is_opened(table, name, dirs_for(branch, dirs));
                lemma_unvisited_decreases(table, branch, src.path);
                lemma_expand_all_linked(
                    table,
                    dirs,
                    default_version,
                    held_to,
                    branch.push(src.path),
                    src.targets(),
                    0,
                    entered,
                );
                let out = expand_all(
                    table,
                    dirs,
                    default_version,
                    held_to,
                    branch.push(src.path),
                    src.targets(),
                    0,
                    entered,
                );
                if out is Ok {
                    assert forall|other: Seq<char>| #[trigger]
                        forest.target(other) is Some implies out->Ok_0.target(other) is Some by {
                        assert(entered.target(other) is Some);
                    }
                }
            }
        },
    }
}

/// The same of the expansion of several files.
pub proof fn lemma_expand_all_linked(
    table: Seq<EntryView>,
    dirs: Seq<Seq<char>>,
    default_version: usize,
    version: Option<usize>,
    branch: Seq<Seq<char>>,
    targets: Seq<Seq<char>>,
    k: int,
    forest: Forest,
)
    requires
        forest.linked(),
    ensures
        expand_all(table, dirs, default_version, version, branch, targets, k, forest) matches Ok(
            out,
        ) ==> {
            &&& out.linked()
            &&& forall|other: Seq<char>| #[trigger]
                forest.target(other) is Some ==> out.target(other) is Some
            &&& forall|j: int|
                0 <= k <= j < targets.len() ==> out.target(#[trigger] targets[j]) is Some
        },
    decreases unvisited(table, branch), 1nat, targets.len() - k,
{
    if 0 <= k < targets.len() {
        lemma_expand_linked(table, dirs, default_version, version, branch, targets[k], forest);
        match expand(table, dirs, default_version, version, branch, targets[k], forest) {
            Err(_) => {},
            Ok(next) => {
                lemma_expand_all_linked(
                    table,
                    dirs,
                    default_version,
                    version,
                    branch,
                    targets,
                    k + 1,
                    next,
                );
            },
        }
    }
}

/// The number of files of the forest that have not been seen: what a
/// rendering can still descend into.
pub open spec fn unseen(forest: Forest, seen: Set<Seq<char>>) -> nat {
    forest.paths().difference(seen).len()
}

/// Seeing a file of the forest for the first time leaves fewer unseen.
pub proof fn lemma_unseen_decreases(forest: Forest, seen: Set<Seq<char>>, path: Seq<char>)
    requires
        forest.node(path) is Some,
        !seen.contains(path),
    ensures
        unseen(forest, seen.insert(path)) < unseen(forest, seen),
{
    lemma_node_has_path(forest, path);
    let before = forest.paths().difference(seen);
    let after = forest.paths().difference(seen.insert(path));
    assert(after =~= before.remove(path));
}

/// The more files have been seen, the fewer are unseen.
pub proof fn lemma_unseen_shrinks(forest: Forest, seen: Set<Seq<char>>, more: Set<Seq<char>>)
    requires
        seen.subset_of(more),
    ensures
        unseen(forest, more) <= unseen(forest, seen),
{
    vstd::set_lib::lemma_len_subset(
        forest.paths().difference(more),
        forest.paths().difference(seen),
    );
}

/// What a rendering gives: the lines put out, and the paths of the files
/// seen when it ends.
pub struct Rendering {
    pub lines: Seq<Seq<char>>,
    pub seen: Set<Seq<char>>,
}

/// The file that the include directive in line `i` of `src` leads to, if
/// the line holds one and the forest has its file.
pub open spec fn included_file(forest: Forest, src: Source, i: int) -> Option<Source> {
    if 0 <= i < src.lines.len() && i <= usize::MAX && src.includes.contains_key(i as usize) {
        forest.file(src.includes[i as usize])
    } else {
        None
    }
}

/// The rendering of the lines of `src` from line `from` on, where the files
/// in `seen` have been seen before. A line whose include directive leads to
/// a file of the forest gives the rendering of that file the first time
/// the file is seen, and nothing afterwards; the line of the version pragma
/// gives nothing; every other line gives itself.
pub open spec fn render_from(forest: Forest, src: Source, from: int, seen: Set<Seq<char>>) -> Rendering
    decreases unseen(forest, seen), src.lines.len() - from,
{
    if from < 0 || from >= src.lines.len() {
        Rendering { lines: Seq::empty(), seen }
    } else {
        match included_file(forest, src, from) {
            Some(file) => {
                if seen.contains(file.path) {
                    render_from(forest, src, from + 1, seen)
                } else {
                    proof {
                        lemma_node_has_path(forest, forest.target(src.includes[from as usize])->0);
                        lemma_unseen_decreases(forest, seen, file.path);
                    }
                    let inner = render_from(forest, file, 0, seen.insert(file.path));
                    // the files seen inside stay seen
                    let after = seen.insert(file.path).union(inner.seen);
                    proof {
                        lemma_unseen_shrinks(forest, seen, after);
                    }
                    let rest = render_from(forest, src, from + 1, after);
                    Rendering { lines: inner.lines + rest.lines, seen: rest.seen }
                }
            },
            None => {
                let rest = render_from(forest, src, from + 1, seen);
                if src.pragma_line() matches Some(line) && line == from {
                    rest
                } else {
                    Rendering { lines: seq![src.lines[from]] + rest.lines, seen: rest.seen }
                }
            },
        }
    }
}

/// A rendering forgets no file that was seen before it.
pub proof fn lemma_render_seen_grows(
    forest: Forest,
    src: Source,
    from: int,
    seen: Set<Seq<char>>,
)
    ensures
        seen.subset_of(render_from(forest, src, from, seen).seen),
    decreases unseen(forest, seen), src.lines.len() - from,
{
    if 0 <= from < src.lines.len() {
        match included_file(forest, src, from) {
            Some(file) => {
                if seen.contains(file.path) {
                    lemma_render_seen_grows(forest, src, from + 1, seen);
                } else {
                    lemma_node_has_path(forest, forest.target(src.includes[from as usize])->0);
                    let inner = render_from(forest, file, 0, seen.insert(file.path));
                    let after = seen.insert(file.path).union(inner.seen);
                    lemma_unseen_shrinks(forest, seen, after);
                    lemma_render_seen_grows(forest, src, from + 1, after);
                }
            },
            None => {
                lemma_render_seen_grows(forest, src, from + 1, seen);
            },
        }
    }
}

/// The set of a sequence with one more item is the set of the sequence
/// with that item.
proof fn lemma_push_to_set(items: Seq<Seq<char>>, item: Seq<char>)
    ensures
        items.push(item).to_set() == items.to_set().insert(item),
{
    let longer = items.push(item);
    assert forall|x: Seq<char>| longer.to_set().contains(x) <==> items.to_set().insert(
        item,
    ).contains(x) by {
        if items.contains(x) {
            let i = choose|i: int| 0 <= i < items.len() && items[i] == x;
            assert(longer[i] == x);
        }
        if x == item {
            assert(longer[items.len() as int] == x);
        }
    }
}

/// The line that declares the version `version`.
pub open spec fn version_line(version: usize) -> Seq<char> {
    "#version "@ + decimal(version as nat)
}

/// The lines that a flattened tree consists of: the line that declares the
/// version of the root, or `default_version` where the root declares none,
/// and then the rendering of the root.
pub open spec fn rendered_lines(forest: Forest, root: Seq<char>, default_version: usize) -> Seq<
    Seq<char>,
> {
    match forest.file(root) {
        Some(src) => seq![version_line(src.version_or(default_version))] + render_from(
            forest,
            src,
            0,
            Set::empty(),
        ).lines,
        None => Seq::empty(),
    }
}

/// The text of the flattened tree: the line that declares the version, a
/// line feed, and the lines of the rendering of the root with a line feed
/// between each two of them.
pub open spec fn rendered_text(forest: Forest, root: Seq<char>, default_version: usize) -> Seq<
    char,
> {
    match forest.file(root) {
        Some(src) => version_line(src.version_or(default_version)) + seq!['\n'] + joined(
            render_from(forest, src, 0, Set::empty()).lines,
        ),
        None => Seq::empty(),
    }
}

/// What a [`GLSLTree`] stands for.
pub struct TreeView {
    pub include_dirs: Seq<Seq<char>>,
    pub src_map: Forest,
    pub root_path: Seq<char>,
    pub rendered: Seq<char>,
}

/// The tree with the root `root`, as the table shows the files.
pub open spec fn build_tree(
    table: Seq<EntryView>,
    root: Seq<char>,
    dirs: Seq<Seq<char>>,
    default_version: usize,
) -> Result<TreeView, ErrorView> {
    match build_forest(table, root, dirs, default_version) {
        Err(error) => Err(error),
        Ok(forest) => Ok(
            TreeView {
                include_dirs: dirs,
                src_map: forest,
                root_path: root,
                rendered: rendered_text(forest, root, default_version),
            },
        ),
    }
}

/// The version that OpenGL takes a source without a version pragma to have.
pub const DEFAULT_VERSION: usize = 110;

/// An in-memory GLSL source tree.
#[derive(Debug)]
pub struct GLSLTree {
    include_dirs: Vec<String>,
    src_map: SourceMap,
    root_path: String,
    rendered: String,
}

impl Clone for GLSLTree {
    fn clone(&self) -> (copy: Self)
        ensures
            copy@ == self@,
    {
        GLSLTree {
            include_dirs: clone_slice(self.include_dirs.as_slice()),
            src_map: self.src_map.clone(),
            root_path: self.root_path.clone(),
            rendered: self.rendered.clone(),
        }
    }
}

impl View for GLSLTree {
    type V = TreeView;

    closed spec fn view(&self) -> TreeView {
        TreeView {
            include_dirs: self.include_dirs.deep_view(),
            src_map: self.src_map@,
            root_path: self.root_path@,
            rendered: self.rendered@,
        }
    }
}

/// The index of the first file at or after `from` on which `current` is
/// silent or reports a failure, or the number of files where there is none.
pub open spec fn first_failure(
    nodes: Seq<Source>,
    current: Seq<Result<ModTime, IoFailure>>,
    from: int,
) -> int
    decreases nodes.len() - from,
{
    if 0 <= from < nodes.len() && from < current.len() && current[from] is Ok {
        first_failure(nodes, current, from + 1)
    } else {
        from
    }
}

/// Whether the files are out of date, given what the file system now says
/// of the modification time of each, in their order: whether one of these
/// times is later than the time recorded with the file. A failure to tell
/// the time of a file is an error, the first in the order of the files
/// before the others; so is the lack of a report on a file.
pub open spec fn expired_files(nodes: Seq<Source>, current: Seq<Result<ModTime, IoFailure>>) -> Result<
    bool,
    ErrorView,
> {
    let k = first_failure(nodes, current, 0);
    if k < nodes.len() {
        if k < current.len() {
            Err(ErrorView::Io(current[k]->Err_0@))
        } else {
            Err(ErrorView::Unread(ProbeView { dir: None, name: nodes[k].path }))
        }
    } else {
        Ok(exists|i: int| 0 <= i < nodes.len() && is_stale(nodes, current, i))
    }
}

/// Whether the `i`th file is older than the file system now says.
pub open spec fn is_stale(nodes: Seq<Source>, current: Seq<Result<ModTime, IoFailure>>, i: int) -> bool {
    current[i] is Ok && current[i]->Ok_0.is_after(nodes[i].mtime)
}

proof fn lemma_first_failure(
    nodes: Seq<Source>,
    current: Seq<Result<ModTime, IoFailure>>,
    from: int,
    to: int,
)
    requires
        0 <= from <= to <= nodes.len(),
        forall|k: int| from <= k < to ==> k < current.len() && (#[trigger] current[k]) is Ok,
        to == nodes.len() || to >= current.len() || current[to] is Err,
    ensures
        first_failure(nodes, current, from) == to,
    decreases to - from,
{
    if from < to {
        lemma_first_failure(nodes, current, from + 1, to);
    }
}

impl GLSLTree {
    /// Creates a GLSL source tree from the given glsl file, tracing all its
    /// include directives and looking for the included files in all given
    /// include directories, as `files` shows the file system.
    ///
    /// If an include is ambiguous, the first file found is loaded, so take
    /// care of the order of the include directories.
    pub fn new(path: &str, include_dirs: &[String], files: &FileTable) -> (r: Result<
        GLSLTree,
        Error,
    >)
        ensures
            match r {
                Ok(tree) => build_tree(files@, path@, include_dirs.deep_view(), DEFAULT_VERSION)
                    == Ok::<TreeView, ErrorView>(tree@),
                Err(e) => build_tree(files@, path@, include_dirs.deep_view(), DEFAULT_VERSION)
                    == Err::<TreeView, ErrorView>(e@),
            },
    {
        GLSLTree::with_default_version(path, include_dirs, DEFAULT_VERSION, files)
    }

    /// Works like `new`, except sets the default version. By default OpenGL
    /// assumes GLSL source without a version pragma is version 110. The
    /// explicit version pragma of the root source, if it has one, always
    /// overrides the default.
    pub fn with_default_version(
        path: &str,
        include_dirs: &[String],
        default_version: usize,
        files: &FileTable,
    ) -> (r: Result<GLSLTree, Error>)
        ensures
            match r {
                Ok(tree) => build_tree(files@, path@, include_dirs.deep_view(), default_version)
                    == Ok::<TreeView, ErrorView>(tree@),
                Err(e) => build_tree(files@, path@, include_dirs.deep_view(), default_version)
                    == Err::<TreeView, ErrorView>(e@),
            },
    {
        if path.is_empty() {
            return Err(Error::MissingRoot);
        }
        let root_path = String::from_str(path);
        let src_map = match GLSLTree::build_node(
            &root_path,
            include_dirs,
            &Branch::new(),
            None,
            default_version,
            SourceMap::new(),
            files,
        ) {
            Ok(map) => map,
            Err(e) => {
                return Err(e);
            },
        };
        let mut rendered = String::new();
        match src_map.file(&root_path) {
            Some(root) => {
                let version: usize = match root.version_pragma {
                    Some((_, v)) => v,
                    None => default_version,
                };
                let mut seen: Vec<String> = Vec::new();
                assert(seen.deep_view().to_set() =~= Set::<Seq<char>>::empty());
                let body = GLSLTree::render_node(root, &src_map, &mut seen);
                proof {
                    reveal_strlit("\n");
                }
                rendered.append("#version ");
                rendered.append(decimal_string(version).as_str());
                rendered.append("\n");
                rendered.append(join_lines(&body).as_str());
                assert(rendered@ =~= version_line(version) + seq!['\n'] + joined(body.deep_view()));
            },
            None => {},
        }
        let include_dirs = clone_slice(include_dirs);
        Ok(GLSLTree { include_dirs, rendered, src_map, root_path })
    }

    /// Refreshes the source tree, re-tracing from the root as `files` now
    /// shows the file system. Only files still included in the source tree
    /// are present in the refreshed tree.
    pub fn refresh(self, files: &FileTable) -> (r: Result<GLSLTree, Error>)
        ensures
            match r {
                Ok(tree) => build_tree(
                    files@,
                    self@.root_path,
                    self@.include_dirs,
                    DEFAULT_VERSION,
                ) == Ok::<TreeView, ErrorView>(tree@),
                Err(e) => build_tree(files@, self@.root_path, self@.include_dirs, DEFAULT_VERSION)
                    == Err::<TreeView, ErrorView>(e@),
            },
    {
        GLSLTree::new(self.root_path.as_str(), self.include_dirs.as_slice(), files)
    }

    /// The paths of the files of the tree, in the order in which the files
    /// were first loaded: the order in which `expired` takes its reports.
    pub fn paths(&self) -> (paths: Vec<String>)
        ensures
            paths.deep_view() == self@.src_map.nodes.map_values(|src: Source| src.path),
    {
        let mut paths: Vec<String> = Vec::new();
        let mut i: usize = 0;
        while i < self.src_map.len()
            invariant
                i <= self.src_map@.nodes.len(),
                paths.len() == i,
                forall|k: int| 0 <= k < i ==> paths[k]@ == self.src_map@.nodes[k].path,
            decreases self.src_map@.nodes.len() - i,
        {
            paths.push(self.src_map.nth(i).path.clone());
            i = i + 1;
        }
        paths
    }

    /// Returns whether one or more files of the cached source tree are out
    /// of sync with the file system, of which `current` reports: for each
    /// file of the tree, in the order of `paths`, its modification time now
    /// or the failure to tell it.
    pub fn expired(&self, current: &Vec<Result<ModTime, IoFailure>>) -> (r: Result<bool, Error>)
        ensures
            match r {
                Ok(stale) => expired_files(self@.src_map.nodes, current@) == Ok::<bool, ErrorView>(
                    stale,
                ),
                Err(e) => expired_files(self@.src_map.nodes, current@) == Err::<bool, ErrorView>(
                    e@,
                ),
            },
    {
        let ghost nodes = self@.src_map.nodes;
        let n: usize = self.src_map.len();
        let mut i: usize = 0;
        while i < n
            invariant
                i <= n,
                n == nodes.len(),
                nodes == self@.src_map.nodes,
                forall|k: int| 0 <= k < i ==> k < current.len() && (#[trigger] current@[k]) is Ok,
            decreases n - i,
        {
            if i >= current.len() {
                proof {
                    lemma_first_failure(nodes, current@, 0, i as int);
                }
                return Err(
                    Error::Unread(
                        crate::error::Probe { dir: None, name: self.src_map.nth(i).path.clone() },
                    ),
                );
            }
            match &current[i] {
                Ok(_) => {},
                Err(cause) => {
                    proof {
                        lemma_first_failure(nodes, current@, 0, i as int);
                    }
                    return Err(Error::Io(cause.clone()));
                },
            }
            i = i + 1;
        }
        proof {
            lemma_first_failure(nodes, current@, 0, n as int);
        }
        let mut stale = false;
        let mut k: usize = 0;
        while k < n
            invariant
                k <= n,
                n == nodes.len(),
                nodes == self@.src_map.nodes,
                forall|j: int| 0 <= j < n ==> j < current.len() && (#[trigger] current@[j]) is Ok,
                stale == exists|j: int| 0 <= j < k && is_stale(nodes, current@, j),
            decreases n - k,
        {
            match &current[k] {
                Ok(now) => {
                    if now.later_than(&self.src_map.nth(k).mtime) {
                        assert(is_stale(nodes, current@, k as int));
                        stale = true;
                    }
                },
                Err(_) => {},
            }
            k = k + 1;
        }
        Ok(stale)
    }

    /// The path of the root, as it was given.
    pub fn root_path(&self) -> (path: &str)
        ensures
            path@ == self@.root_path,
    {
        self.root_path.as_str()
    }

    /// The directories in which included files are searched.
    pub fn include_dirs(&self) -> (dirs: &Vec<String>)
        ensures
            dirs.deep_view() == self@.include_dirs,
    {
        &self.include_dirs
    }

    /// Returns the cached source string, with all includes processed. This
    /// is the result to feed into a GLSL compiler.
    pub fn render(&self) -> (text: &str)
        ensures
            text@ == self@.rendered,
    {
        self.rendered.as_str()
    }

    /// Renders the lines of `src`: see [`render_from`]. The paths in `seen`
    /// are those of the files seen before; the files seen in this rendering
    /// are added to them.
    pub fn render_node(src: &AnnotatedGLSL, src_map: &SourceMap, seen: &mut Vec<String>) -> (lines:
        Vec<String>)
        ensures
            lines.deep_view() == render_from(
                src_map@,
                src@,
                0,
                old(seen).deep_view().to_set(),
            ).lines,
            final(seen).deep_view().to_set() == render_from(
                src_map@,
                src@,
                0,
                old(seen).deep_view().to_set(),
            ).seen,
        decreases unseen(src_map@, old(seen).deep_view().to_set()),
    {
        let ghost forest = src_map@;
        let ghost s = src@;
        let ghost seen0 = seen.deep_view().to_set();
        let ghost goal = render_from(forest, s, 0, seen0);
        let mut out: Vec<String> = Vec::new();
        let mut i: usize = 0;
        while i < src.lines.len()
            invariant
                i <= src.lines.len(),
                forest == src_map@,
                s == src@,
                seen0 == old(seen).deep_view().to_set(),
                seen0.subset_of(seen.deep_view().to_set()),
                goal.lines == out.deep_view() + render_from(
                    forest,
                    s,
                    i as int,
                    seen.deep_view().to_set(),
                ).lines,
                goal.seen == render_from(forest, s, i as int, seen.deep_view().to_set()).seen,
            decreases src.lines.len() - i,
        {
            let ghost now = seen.deep_view().to_set();
            let included: Option<&AnnotatedGLSL> = match src.includes.get(&i) {
                Some(name) => src_map.file(name),
                None => None,
            };
            match included {
                Some(file) => {
                    if !was_seen(seen, &file.path) {
                        let ghost path = file@.path;
                        proof {
                            lemma_node_has_path(forest, forest.target(s.includes[i])->0);
                            lemma_unseen_decreases(forest, now, path);
                            lemma_unseen_shrinks(forest, seen0, now);
                            lemma_push_to_set(seen.deep_view(), path);
                            lemma_render_seen_grows(forest, file@, 0, now.insert(path));
                        }
                        let ghost listed = seen.deep_view();
                        seen.push(file.path.clone());
                        assert(seen.deep_view() =~= listed.push(path));
                        let mut inner = GLSLTree::render_node(file, src_map, seen);
                        let ghost inside = render_from(forest, file@, 0, now.insert(path));
                        assert(now.insert(path).union(inside.seen) =~= inside.seen);
                        out.append(&mut inner);
                    }
                },
                None => {
                    let is_pragma = match src.version_pragma {
                        Some((line, _)) => line == i,
                        None => false,
                    };
                    if !is_pragma {
                        out.push(src.lines[i].clone());
                    }
                },
            }
            i = i + 1;
        }
        out
    }

    /// Expands the file that `path` leads to, below the files on `branch`,
    /// into `src_map`: see [`expand`].
    pub fn build_node(
        path: &String,
        include_dirs: &[String],
        branch: &Branch,
        version: Option<usize>,
        default_version: usize,
        src_map: SourceMap,
        files: &FileTable,
    ) -> (r: Result<SourceMap, Error>)
        ensures
            match r {
                Ok(map) => expand(
                    files@,
                    include_dirs.deep_view(),
                    default_version,
                    version,
                    branch@,
                    path@,
                    src_map@,
                ) == Ok::<Forest, ErrorView>(map@),
                Err(e) => expand(
                    files@,
                    include_dirs.deep_view(),
                    default_version,
                    version,
                    branch@,
                    path@,
                    src_map@,
                ) == Err::<Forest, ErrorView>(e@),
            },
        decreases unvisited(files@, branch@),
    {
        let ghost table = files@;
        let ghost dirs = include_dirs.deep_view();
        let ghost above = branch@;
        let ghost goal = expand(table, dirs, default_version, version, above, path@, src_map@);
        let none: Vec<String> = Vec::new();
        let loaded = if branch.at_root() {
            // root shader; don't search include dirs.
            AnnotatedGLSL::load(path.as_str(), none.as_slice(), files)
        } else {
            AnnotatedGLSL::load(path.as_str(), include_dirs, files)
        };
        let src = match loaded {
            Ok(src) => src,
            Err(e) => {
                return Err(e);
            },
        };
        if branch.holds(&src.path) {
            return Err(Error::Cycle(branch.below(src.path.clone()).paths()));
        }
        match (version, src.version_pragma) {
            (Some(root_version), Some((_, src_version))) => {
                if root_version != src_version {
                    return Err(
                        Error::VersionMismatch {
                            root_version,
                            src_version,
                            src_path: path.clone(),
                        },
                    );
                }
            },
            _ => {},
        }
        let held_to = if branch.at_root() {
            // root shader; the default version holds if it has no version pragma.
            match src.version_pragma {
                Some((_, v)) => Some(v),
                None => Some(default_version),
            }
        } else {
            version
        };
        let inner = branch.below(src.path.clone());
        let targets = src.targets();
        let ghost below = above.push(src@.path);
        let ghost names = src@.targets();
        proof {
            lemma_loaded_is_opened(table, path@, dirs_for(above, dirs));
            lemma_unvisited_decreases(table, above, src@.path);
        }
        let mut map = src_map;
        map.insert(path.clone(), src);
        let mut k: usize = 0;
        while k < targets.len()
            invariant
                k <= targets.len(),
                table == files@,
                dirs == include_dirs.deep_view(),
                names == targets.deep_view(),
                below == inner@,
                unvisited(table, below) < unvisited(table, above),
                above == branch@,
                goal == expand(table, dirs, default_version, version, above, path@, src_map@),
                goal == expand_all(
                    table,
                    dirs,
                    default_version,
                    held_to,
                    below,
                    names,
                    k as int,
                    map@,
                ),
            decreases targets.len() - k,
        {
            map =
            match GLSLTree::build_node(
                &targets[k],
                include_dirs,
                &inner,
                held_to,
                default_version,
                map,
                files,
            ) {
                Ok(next) => next,
                Err(e) => {
                    return Err(e);
                },
            };
            k = k + 1;
        }
        Ok(map)
    }
}

} // verus!
