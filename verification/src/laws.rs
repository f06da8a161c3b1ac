//! What holds of every source tree: the laws of flattening and of
//! staleness, each stated over the models that the contracts of the
//! library use, and proved.
use crate::error::{ErrorView, IoFailure, ProbeView};
use crate::files::{reading_of, EntryView, ReadingView};
use crate::forest::{lemma_with, Forest};
use crate::preprocess::{
    annotated, first_version, include_at, is_first_version, lines_of, load_source, version_at,
    ModTime, Source,
};
use crate::text::joined;
use crate::tree::{
    build_forest, build_tree, expand, expired_files, first_failure, included_file,
    is_stale, render_from, rendered_lines, unseen, version_line, lemma_unseen_decreases,
    lemma_unseen_shrinks,
};
use crate::build_laws::{
    include_chain, lemma_built_files_are_reached, lemma_built_tree_is_closed, loaded_in, reached,
};
use crate::forest::lemma_node_has_path;
use crate::preprocess::{probe_step, search_from, Step};
use vstd::prelude::*;

verus! {

/// Whether none of `lines` holds a version directive.
pub open spec fn no_version_directive(lines: Seq<Seq<char>>) -> bool {
    forall|i: int| version_at(lines, i) is None
}

/// Whether none of `lines` holds an include directive.
pub open spec fn no_include_directive(lines: Seq<Seq<char>>) -> bool {
    forall|i: int| include_at(lines, i) is None
}

/// Whether at most one of `lines` holds a version directive.
pub open spec fn one_version_directive(lines: Seq<Seq<char>>) -> bool {
    forall|i: int, j: int| version_at(lines, i) is Some && version_at(lines, j) is Some ==> i == j
}

/// Whether a file is annotated as its lines say, holds at most one version
/// directive, and has no more lines than can be counted.
pub open spec fn plainly_versioned_file(src: Source) -> bool {
    &&& src.well_annotated()
    &&& one_version_directive(src.lines)
    &&& src.lines.len() <= usize::MAX
}

/// Whether every file of the forest is so.
pub open spec fn plainly_versioned(forest: Forest) -> bool {
    forall|path: Seq<char>| #[trigger]
        forest.node(path) is Some ==> plainly_versioned_file(forest.node(path)->0)
}

/// A file without include directives names no targets.
proof fn lemma_no_targets(src: Source, n: int)
    requires
        src.includes == Map::<usize, Seq<char>>::empty(),
    ensures
        src.targets_upto(n) == Seq::<Seq<char>>::empty(),
    decreases n,
{
    if n > 0 {
        lemma_no_targets(src, n - 1);
    }
}

/// The rendering of a file without include directives and without a version
/// pragma is the file, and sees nothing new.
proof fn lemma_render_plain(forest: Forest, src: Source, from: int, seen: Set<Seq<char>>)
    requires
        0 <= from <= src.lines.len(),
        src.includes == Map::<usize, Seq<char>>::empty(),
        src.version_pragma is None,
    ensures
        render_from(forest, src, from, seen).lines == src.lines.subrange(
            from,
            src.lines.len() as int,
        ),
        render_from(forest, src, from, seen).seen == seen,
    decreases src.lines.len() - from,
{
    if from < src.lines.len() {
        lemma_render_plain(forest, src, from + 1, seen);
    }
}

/// Round trip. A root that holds no include directive and no version
/// directive is flattened to the line that declares the default version,
/// followed by the lines of the root, unchanged and in their order.
pub proof fn lemma_plain_root_round_trip(
    table: Seq<EntryView>,
    root: Seq<char>,
    dirs: Seq<Seq<char>>,
    default_version: usize,
    path: Seq<char>,
    text: Seq<char>,
    mtime: ModTime,
)
    requires
        root.len() > 0,
        reading_of(table, ProbeView { dir: None, name: root }) == Some(
            ReadingView::Loaded { path, text, mtime },
        ),
        no_include_directive(lines_of(text)),
        no_version_directive(lines_of(text)),
    ensures
        build_tree(table, root, dirs, default_version) is Ok,
        build_tree(table, root, dirs, default_version)->Ok_0.rendered == version_line(
            default_version,
        ) + seq!['\n'] + joined(lines_of(text)),
        rendered_lines(
            build_tree(table, root, dirs, default_version)->Ok_0.src_map,
            root,
            default_version,
        ) == seq![version_line(default_version)] + lines_of(text),
{
    let lines = lines_of(text);
    let src = annotated(path, lines, mtime);
    assert(src.includes =~= Map::<usize, Seq<char>>::empty());
    lemma_no_targets(src, src.lines.len() as int);
    let entered = Forest::empty().with(root, src);
    lemma_render_plain(entered, src, 0, Set::empty());
    assert(src.lines.subrange(0, src.lines.len() as int) =~= lines);
}

/// Lines of which none holds a version directive, one after the other,
/// hold none.
proof fn lemma_no_version_concat(first: Seq<Seq<char>>, second: Seq<Seq<char>>)
    requires
        no_version_directive(first),
        no_version_directive(second),
    ensures
        no_version_directive(first + second),
{
    assert forall|i: int| version_at(first + second, i) is None by {
        if 0 <= i < first.len() {
            assert(version_at(first, i) is None);
        } else if first.len() <= i < first.len() + second.len() {
            assert(version_at(second, i - first.len()) is None);
        }
    }
}

/// No version directive is rendered. Where every file is annotated as its
/// lines say and holds at most one version directive, no line of a
/// rendering holds a version directive: the pragma of each file is left
/// out, whichever file it stands in.
pub proof fn lemma_no_version_directive_rendered(
    forest: Forest,
    src: Source,
    from: int,
    seen: Set<Seq<char>>,
)
    requires
        plainly_versioned(forest),
        plainly_versioned_file(src),
    ensures
        no_version_directive(render_from(forest, src, from, seen).lines),
    decreases unseen(forest, seen), src.lines.len() - from,
{
    if 0 <= from < src.lines.len() {
        match included_file(forest, src, from) {
            Some(file) => {
                if seen.contains(file.path) {
                    lemma_no_version_directive_rendered(forest, src, from + 1, seen);
                } else {
                    let target = forest.target(src.includes[from as usize])->0;
                    lemma_node_has_path(forest, target);
                    lemma_unseen_decreases(forest, seen, file.path);
                    lemma_no_version_directive_rendered(forest, file, 0, seen.insert(file.path));
                    let inner = render_from(forest, file, 0, seen.insert(file.path));
                    let after = seen.insert(file.path).union(inner.seen);
                    lemma_unseen_shrinks(forest, seen, after);
                    lemma_no_version_directive_rendered(forest, src, from + 1, after);
                    lemma_no_version_concat(
                        inner.lines,
                        render_from(forest, src, from + 1, after).lines,
                    );
                }
            },
            None => {
                lemma_no_version_directive_rendered(forest, src, from + 1, seen);
                let rest = render_from(forest, src, from + 1, seen);
                if !(src.pragma_line() matches Some(line) && line == from) {
                    // a line that is put out is not the version pragma, so
                    // it holds no version directive at all
                    if version_at(src.lines, from) is Some {
                        lemma_first_version_is_pragma(src, from);
                    }
                    lemma_no_version_concat(seq![src.lines[from]], rest.lines);
                }
            },
        }
    }
}

/// In a file that is annotated as its lines say and holds one version
/// directive, the line of that directive is the line of the pragma.
proof fn lemma_first_version_is_pragma(src: Source, line: int)
    requires
        plainly_versioned_file(src),
        version_at(src.lines, line) is Some,
    ensures
        src.pragma_line() matches Some(found) && found == line,
{
    assert(is_first_version(src.lines, line));
}

/// One version line, at the start. The first line of a flattened tree
/// declares the version of the root, or the default version where the root
/// declares none; where every file is annotated as its lines say and holds
/// at most one version directive, no other line holds a version directive.
pub proof fn lemma_one_version_line(forest: Forest, root: Seq<char>, default_version: usize)
    requires
        forest.file(root) is Some,
        plainly_versioned(forest),
    ensures
        rendered_lines(forest, root, default_version).len() > 0,
        rendered_lines(forest, root, default_version)[0] == version_line(
            forest.file(root)->0.version_or(default_version),
        ),
        no_version_directive(rendered_lines(forest, root, default_version).subrange(
            1,
            rendered_lines(forest, root, default_version).len() as int,
        )),
{
    let src = forest.file(root)->0;
    let body = render_from(forest, src, 0, Set::empty()).lines;
    let all = rendered_lines(forest, root, default_version);
    lemma_no_version_directive_rendered(forest, src, 0, Set::empty());
    assert(all.subrange(1, all.len() as int) =~= body);
}

/// A line whose include directive leads to a file that was seen before
/// adds nothing to a rendering.
pub proof fn lemma_seen_file_adds_nothing(
    forest: Forest,
    src: Source,
    line: int,
    seen: Set<Seq<char>>,
)
    requires
        included_file(forest, src, line) is Some,
        seen.contains(included_file(forest, src, line)->0.path),
    ensures
        render_from(forest, src, line, seen) == render_from(forest, src, line + 1, seen),
{
}

/// The paths of the files that a rendering goes into, in the order in which
/// it does: the files that it renders, each where an include directive leads
/// to it for the first time.
pub open spec fn rendered_files(forest: Forest, src: Source, from: int, seen: Set<Seq<char>>) -> Seq<
    Seq<char>,
>
    decreases unseen(forest, seen), src.lines.len() - from,
{
    if from < 0 || from >= src.lines.len() {
        Seq::empty()
    } else {
        match included_file(forest, src, from) {
            Some(file) => {
                if seen.contains(file.path) {
                    rendered_files(forest, src, from + 1, seen)
                } else {
                    proof {
                        lemma_node_has_path(forest, forest.target(src.includes[from as usize])->0);
                        lemma_unseen_decreases(forest, seen, file.path);
                    }
                    let inner = render_from(forest, file, 0, seen.insert(file.path));
                    let after = seen.insert(file.path).union(inner.seen);
                    proof {
                        lemma_unseen_shrinks(forest, seen, after);
                    }
                    seq![file.path] + rendered_files(forest, file, 0, seen.insert(file.path))
                        + rendered_files(forest, src, from + 1, after)
                }
            },
            None => rendered_files(forest, src, from + 1, seen),
        }
    }
}

/// At most once. A rendering goes into no file twice, and into no file
/// that was seen before; the files seen when it ends are those seen before
/// and those it went into. So each file gives its lines at most once,
/// however many include directives lead to it.
pub proof fn lemma_each_file_rendered_once(
    forest: Forest,
    src: Source,
    from: int,
    seen: Set<Seq<char>>,
)
    ensures
        rendered_files(forest, src, from, seen).no_duplicates(),
        forall|path: Seq<char>| #[trigger]
            rendered_files(forest, src, from, seen).contains(path) ==> !seen.contains(path),
        render_from(forest, src, from, seen).seen == seen.union(
            rendered_files(forest, src, from, seen).to_set(),
        ),
    decreases unseen(forest, seen), src.lines.len() - from,
{
    let files = rendered_files(forest, src, from, seen);
    if 0 <= from < src.lines.len() {
        match included_file(forest, src, from) {
            Some(file) => {
                if seen.contains(file.path) {
                    lemma_each_file_rendered_once(forest, src, from + 1, seen);
                } else {
                    let path = file.path;
                    let first = seen.insert(path);
                    lemma_node_has_path(forest, forest.target(src.includes[from as usize])->0);
                    lemma_unseen_decreases(forest, seen, path);
                    lemma_each_file_rendered_once(forest, file, 0, first);
                    let inner = render_from(forest, file, 0, first);
                    let inside = rendered_files(forest, file, 0, first);
                    let after = first.union(inner.seen);
                    lemma_unseen_shrinks(forest, seen, after);
                    lemma_each_file_rendered_once(forest, src, from + 1, after);
                    let rest = rendered_files(forest, src, from + 1, after);
                    let head = seq![path];
                    assert forall|i: int, j: int|
                        0 <= i < head.len() && 0 <= j < inside.len() implies head[i]
                        != inside[j] by {
                        assert(inside.contains(inside[j]));
                    }
                    assert forall|i: int, j: int|
                        0 <= i < (head + inside).len() && 0 <= j < rest.len() implies (head
                        + inside)[i] != rest[j] by {
                        assert(rest.contains(rest[j]));
                    }
                    assert forall|p: Seq<char>| files.contains(p) implies !seen.contains(p) by {
                        let n = choose|n: int| 0 <= n < files.len() && files[n] == p;
                        if 1 <= n < 1 + inside.len() {
                            assert(inside.contains(p));
                        } else if n >= 1 + inside.len() {
                            assert(rest.contains(p));
                        }
                    }
                    assert forall|p: Seq<char>|
                        render_from(forest, src, from, seen).seen.contains(p) <==> seen.union(
                            files.to_set(),
                        ).contains(p) by {
                        if p == path {
                            assert(files[0] == p);
                        }
                        if inside.contains(p) {
                            let n = choose|n: int| 0 <= n < inside.len() && inside[n] == p;
                            assert(files[n + 1] == p);
                        }
                        if rest.contains(p) {
                            let n = choose|n: int| 0 <= n < rest.len() && rest[n] == p;
                            assert(files[n + 1 + inside.len()] == p);
                        }
                    }
                }
            },
            None => {
                lemma_each_file_rendered_once(forest, src, from + 1, seen);
            },
        }
    }
}

/// Whether `line` is a line of `src` or of a file of the forest.
pub open spec fn is_line_of_files(forest: Forest, src: Source, line: Seq<char>) -> bool {
    src.lines.contains(line) || exists|path: Seq<char>| #[trigger]
        forest.node(path) is Some && forest.node(path)->0.lines.contains(line)
}

/// Nothing from elsewhere. Every line of a rendering is a line of the
/// file rendered or of a file of the forest: what is in no file of the
/// tree is not in its text.
pub proof fn lemma_rendered_lines_come_from_files(
    forest: Forest,
    src: Source,
    from: int,
    seen: Set<Seq<char>>,
)
    ensures
        forall|k: int|
            0 <= k < render_from(forest, src, from, seen).lines.len() ==> is_line_of_files(
                forest,
                src,
                #[trigger] render_from(forest, src, from, seen).lines[k],
            ),
    decreases unseen(forest, seen), src.lines.len() - from,
{
    if 0 <= from < src.lines.len() {
        match included_file(forest, src, from) {
            Some(file) => {
                if seen.contains(file.path) {
                    lemma_rendered_lines_come_from_files(forest, src, from + 1, seen);
                    assert(render_from(forest, src, from, seen).lines == render_from(
                        forest,
                        src,
                        from + 1,
                        seen,
                    ).lines);
                } else {
                    let target = forest.target(src.includes[from as usize])->0;
                    lemma_node_has_path(forest, target);
                    lemma_unseen_decreases(forest, seen, file.path);
                    lemma_rendered_lines_come_from_files(forest, file, 0, seen.insert(file.path));
                    let inner = render_from(forest, file, 0, seen.insert(file.path));
                    let after = seen.insert(file.path).union(inner.seen);
                    lemma_unseen_shrinks(forest, seen, after);
                    lemma_rendered_lines_come_from_files(forest, src, from + 1, after);
                    assert(render_from(forest, src, from, seen).lines == inner.lines + render_from(
                        forest,
                        src,
                        from + 1,
                        after,
                    ).lines);
                }
            },
            None => {
                lemma_rendered_lines_come_from_files(forest, src, from + 1, seen);
                let rest = render_from(forest, src, from + 1, seen).lines;
                assert(render_from(forest, src, from, seen).lines == rest || render_from(
                    forest,
                    src,
                    from,
                    seen,
                ).lines == seq![src.lines[from]] + rest);
            },
        }
    }
}

/// The reports that stand for the file system as it was when the files were
/// read: for each file, the time recorded with it.
pub open spec fn unchanged_reports(nodes: Seq<Source>, current: Seq<Result<ModTime, IoFailure>>) -> bool {
    &&& current.len() == nodes.len()
    &&& forall|i: int| 0 <= i < nodes.len() ==> current[i] == Ok::<ModTime, IoFailure>(nodes[i].mtime)
}

/// Whether every file has its report, and every report tells a time.
pub open spec fn all_reported(nodes: Seq<Source>, current: Seq<Result<ModTime, IoFailure>>) -> bool {
    &&& nodes.len() <= current.len()
    &&& forall|i: int| 0 <= i < nodes.len() ==> (#[trigger] current[i]) is Ok
}

proof fn lemma_no_failure(nodes: Seq<Source>, current: Seq<Result<ModTime, IoFailure>>, from: int)
    requires
        all_reported(nodes, current),
        0 <= from <= nodes.len(),
    ensures
        first_failure(nodes, current, from) == nodes.len(),
    decreases nodes.len() - from,
{
    if from < nodes.len() {
        lemma_no_failure(nodes, current, from + 1);
    }
}

/// Staleness: a tree whose files are as they were when they were read is
/// not expired.
pub proof fn lemma_unchanged_files_are_current(
    nodes: Seq<Source>,
    current: Seq<Result<ModTime, IoFailure>>,
)
    requires
        unchanged_reports(nodes, current),
    ensures
        expired_files(nodes, current) == Ok::<bool, ErrorView>(false),
{
    lemma_no_failure(nodes, current, 0);
}

/// Staleness: as soon as one file has a later modification time than the
/// one recorded with it, the tree is expired, whatever the times of the
/// other files.
pub proof fn lemma_touched_file_expires(
    nodes: Seq<Source>,
    current: Seq<Result<ModTime, IoFailure>>,
    touched: int,
)
    requires
        all_reported(nodes, current),
        0 <= touched < nodes.len(),
        current[touched]->Ok_0.is_after(nodes[touched].mtime),
    ensures
        expired_files(nodes, current) == Ok::<bool, ErrorView>(true),
{
    lemma_no_failure(nodes, current, 0);
    assert(is_stale(nodes, current, touched));
}

/// Whether every file that the table holds has at most one version
/// directive, and no more lines than can be counted.
pub open spec fn plainly_versioned_files(table: Seq<EntryView>) -> bool {
    forall|probe: ProbeView|
        (#[trigger] reading_of(table, probe)) matches Some(ReadingView::Loaded { text, .. })
            ==> one_version_directive(lines_of(text)) && lines_of(text).len() <= usize::MAX
}

/// A file that loads is what one of the probes of the search found.
proof fn lemma_loaded_is_found(table: Seq<EntryView>, name: Seq<char>, dirs: Seq<Seq<char>>) -> (probe:
    ProbeView)
    requires
        load_source(table, name, dirs) is Ok,
    ensures
        probe_step(table, probe) == Step::Found(load_source(table, name, dirs)->Ok_0),
{
    let direct = ProbeView { dir: None, name };
    match probe_step(table, direct) {
        Step::Found(_) => direct,
        Step::Stop(_) => direct,
        Step::Next(cause) => lemma_searched_is_found(table, name, dirs, 0, cause),
    }
}

proof fn lemma_searched_is_found(
    table: Seq<EntryView>,
    name: Seq<char>,
    dirs: Seq<Seq<char>>,
    k: int,
    cause: Seq<char>,
) -> (probe: ProbeView)
    requires
        search_from(table, name, dirs, k, cause) is Ok,
    ensures
        probe_step(table, probe) == Step::Found(search_from(table, name, dirs, k, cause)->Ok_0),
    decreases dirs.len() - k,
{
    let probe = ProbeView { dir: Some(dirs[k]), name };
    match probe_step(table, probe) {
        Step::Found(_) => probe,
        Step::Stop(_) => probe,
        Step::Next(next) => lemma_searched_is_found(table, name, dirs, k + 1, next),
    }
}

/// Whether `src` is a file as the table holds it: the file of one of its
/// readings, with the path that opened, the lines of the text read, and
/// the modification time read.
pub open spec fn is_file_of(table: Seq<EntryView>, src: Source) -> bool {
    exists|probe: ProbeView| #[trigger] probe_step(table, probe) == Step::Found(src)
}

/// As the table holds them. Every file of a tree that was built is a file
/// as the table holds it: a tree that is built again from a later table
/// has the texts and the modification times of that table.
pub proof fn lemma_built_files_are_of_the_table(
    table: Seq<EntryView>,
    root: Seq<char>,
    dirs: Seq<Seq<char>>,
    default_version: usize,
)
    requires
        build_forest(table, root, dirs, default_version) is Ok,
    ensures
        forall|path: Seq<char>| #[trigger]
            build_forest(table, root, dirs, default_version)->Ok_0.node(path) is Some
                ==> is_file_of(
                table,
                build_forest(table, root, dirs, default_version)->Ok_0.node(path)->0,
            ),
{
    let forest = build_forest(table, root, dirs, default_version)->Ok_0;
    lemma_built_files_are_reached(table, root, dirs, default_version);
    assert forall|path: Seq<char>| #[trigger] forest.node(path) is Some implies is_file_of(
        table,
        forest.node(path)->0,
    ) by {
        let src = forest.node(path)->0;
        let names = choose|names: Seq<Seq<char>>|
            include_chain(table, root, dirs, names) && #[trigger] loaded_in(
                table,
                dirs,
                true,
                names,
                names.len() - 1,
            ) == Ok::<Source, ErrorView>(src);
        let last = names.len() - 1;
        lemma_loaded_is_found(
            table,
            names[last],
            if last == 0 {
                Seq::empty()
            } else {
                dirs
            },
        );
    }
}

/// One version line in a built tree. Where no file of the table holds more
/// than one version directive, the first line of the text of a tree that
/// was built declares the version of the tree, and no other line of it
/// holds a version directive, whichever file it comes from.
pub proof fn lemma_built_tree_one_version_line(
    table: Seq<EntryView>,
    root: Seq<char>,
    dirs: Seq<Seq<char>>,
    default_version: usize,
)
    requires
        build_forest(table, root, dirs, default_version) is Ok,
        plainly_versioned_files(table),
    ensures
        ({
            let forest = build_forest(table, root, dirs, default_version)->Ok_0;
            let lines = rendered_lines(forest, root, default_version);
            &&& forest.file(root) is Some
            &&& lines.len() > 0
            &&& lines[0] == version_line(forest.file(root)->0.version_or(default_version))
            &&& no_version_directive(lines.subrange(1, lines.len() as int))
        }),
{
    let forest = build_forest(table, root, dirs, default_version)->Ok_0;
    lemma_built_files_are_of_the_table(table, root, dirs, default_version);
    lemma_built_tree_is_closed(table, root, dirs, default_version);
    lemma_one_version_line(forest, root, default_version);
}

} // verus!
