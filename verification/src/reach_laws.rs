//! More of what holds of every build: what the list of a cycle error is,
//! that the files of a tree are exactly those that the root reaches, and
//! that a build succeeds again after the files have only been touched.
use crate::build_laws::{
    chain_from, held_to, include_chain, lemma_chain_longer, lemma_expand_unfolds, loaded_in,
};
use crate::build_laws::{
    lemma_built_files_are_reached, lemma_built_paths_are_distinct, lemma_expand_keeps_branch,
    reached,
};
use crate::error::{ErrorView, IoFailure, ProbeView};
use crate::files::{reading_of, EntryView, ReadingView};
use crate::forest::{lemma_node_has_path, lemma_node_index, lemma_with, Forest};
use crate::laws::{lemma_built_files_are_of_the_table, lemma_unchanged_files_are_current};
use crate::preprocess::{load_source, probe_step, search_from, ModTime, Source, Step};
use crate::tree::{
    build_forest, build_tree, dirs_for, expand, expand_all, expired_files, lemma_loaded_is_opened,
    lemma_unvisited_decreases, unvisited, version_differs,
};
use vstd::prelude::*;

verus! {

/// Whether `list` holds the paths of the files along the chain `names`
/// from the root: as many paths as names, each the path of the file that
/// the name at its place loads. Each file of such a list but the first is
/// included by the file before it.
pub open spec fn follows_chain(
    table: Seq<EntryView>,
    root: Seq<char>,
    dirs: Seq<Seq<char>>,
    names: Seq<Seq<char>>,
    list: Seq<Seq<char>>,
) -> bool {
    &&& include_chain(table, root, dirs, names)
    &&& names.len() == list.len()
    &&& forall|i: int|
        0 <= i < names.len() ==> (#[trigger] loaded_in(table, dirs, true, names, i)) is Ok
            && loaded_in(table, dirs, true, names, i)->Ok_0.path == list[i]
}

/// Whether, if `result` is a cycle error, its list follows a chain of
/// includes from the root.
pub open spec fn cycle_follows_includes(
    table: Seq<EntryView>,
    root: Seq<char>,
    dirs: Seq<Seq<char>>,
    result: Result<Forest, ErrorView>,
) -> bool {
    result is Err && result->Err_0 is Cycle ==> exists|chain: Seq<Seq<char>>| #[trigger]
        follows_chain(table, root, dirs, chain, result->Err_0->Cycle_0)
}

proof fn lemma_cycle_follows_chain(
    table: Seq<EntryView>,
    dirs: Seq<Seq<char>>,
    default_version: usize,
    version: Option<usize>,
    branch: Seq<Seq<char>>,
    name: Seq<char>,
    forest: Forest,
    names: Seq<Seq<char>>,
)
    requires
        include_chain(table, names[0], dirs, names),
        names.len() == branch.len() + 1,
        names.last() == name,
        forall|i: int|
            0 <= i < branch.len() ==> (#[trigger] loaded_in(table, dirs, true, names, i)) is Ok
                && loaded_in(table, dirs, true, names, i)->Ok_0.path == branch[i],
    ensures
        cycle_follows_includes(
            table,
            names[0],
            dirs,
            expand(table, dirs, default_version, version, branch, name, forest),
        ),
    decreases unvisited(table, branch), 0nat, 0nat,
{
    match load_source(table, name, dirs_for(branch, dirs)) {
        Err(_) => {
            crate::build_laws::lemma_load_fails_without_cycle(table, name, dirs_for(branch, dirs));
        },
        Ok(src) => {
            let below = branch.push(src.path);
            if branch.contains(src.path) {
                // the chain that led here is the chain of the list
                assert(follows_chain(table, names[0], dirs, names, below));
                assert(expand(table, dirs, default_version, version, branch, name, forest)->Err_0->Cycle_0 == below);

            } else if !version_differs(version, src) {
                lemma_loaded_is_opened(table, name, dirs_for(branch, dirs));
                lemma_unvisited_decreases(table, branch, src.path);
                lemma_cycle_follows_chain_all(
                    table,
                    dirs,
                    default_version,
                    held_to(branch, version, default_version, src),
                    below,
                    src.targets(),
                    0,
                    forest.with(name, src),
                    names,
                );
            }
        },
    }
}

proof fn lemma_cycle_follows_chain_all(
    table: Seq<EntryView>,
    dirs: Seq<Seq<char>>,
    default_version: usize,
    version: Option<usize>,
    branch: Seq<Seq<char>>,
    targets: Seq<Seq<char>>,
    k: int,
    forest: Forest,
    names: Seq<Seq<char>>,
)
    requires
        include_chain(table, names[0], dirs, names),
        names.len() == branch.len(),
        loaded_in(table, dirs, true, names, names.len() - 1)->Ok_0.targets() == targets,
        forall|i: int|
            0 <= i < branch.len() ==> (#[trigger] loaded_in(table, dirs, true, names, i)) is Ok
                && loaded_in(table, dirs, true, names, i)->Ok_0.path == branch[i],
    ensures
        cycle_follows_includes(
            table,
            names[0],
            dirs,
            expand_all(table, dirs, default_version, version, branch, targets, k, forest),
        ),
    decreases unvisited(table, branch), 1nat, targets.len() - k,
{
    if 0 <= k < targets.len() {
        lemma_chain_longer(table, dirs, names, targets[k]);
        let longer = names.push(targets[k]);
        assert forall|i: int| 0 <= i < branch.len() implies (#[trigger] loaded_in(
            table,
            dirs,
            true,
            longer,
            i,
        )) is Ok && loaded_in(table, dirs, true, longer, i)->Ok_0.path == branch[i] by {
            assert(loaded_in(table, dirs, true, longer, i) == loaded_in(
                table,
                dirs,
                true,
                names,
                i,
            ));
        }
        lemma_cycle_follows_chain(
            table,
            dirs,
            default_version,
            version,
            branch,
            targets[k],
            forest,
            longer,
        );
        match expand(table, dirs, default_version, version, branch, targets[k], forest) {
            Err(_) => {},
            Ok(next) => {
                lemma_cycle_follows_chain_all(
                    table,
                    dirs,
                    default_version,
                    version,
                    branch,
                    targets,
                    k + 1,
                    next,
                    names,
                );
            },
        }
    }
}

/// The list of a cycle error. Where a build fails with a cycle, the list
/// that the error carries follows a chain of includes from the root: its
/// first path is that of the root, and each later path is that of a file
/// which the file before it includes.
pub proof fn lemma_cycle_list_follows_the_includes(
    table: Seq<EntryView>,
    root: Seq<char>,
    dirs: Seq<Seq<char>>,
    default_version: usize,
)
    ensures
        cycle_follows_includes(table, root, dirs, build_forest(table, root, dirs, default_version)),
{
    if root.len() > 0 {
        let names = seq![root];
        lemma_cycle_follows_chain(
            table,
            dirs,
            default_version,
            None,
            Seq::empty(),
            root,
            Forest::empty(),
            names,
        );
    }
}

/// Whether two readings are the same but for the modification time: both
/// a file with the same path and the same text, or the same in all.
pub open spec fn same_but_time(before: Option<ReadingView>, after: Option<ReadingView>) -> bool {
    if before is Some && before->0 is Loaded {
        &&& after is Some
        &&& after->0 is Loaded
        &&& after->0->path == before->0->path
        &&& after->0->text == before->0->text
    } else {
        after == before
    }
}

/// Whether the files of `after` are those of `before`, touched: every
/// probe gives what it gave, but for the modification times.
pub open spec fn only_touched(before: Seq<EntryView>, after: Seq<EntryView>) -> bool {
    forall|probe: ProbeView|
        #![trigger reading_of(before, probe)]
        #![trigger reading_of(after, probe)]
        same_but_time(reading_of(before, probe), reading_of(after, probe))
}

/// Whether two files are the same but for the modification time.
pub open spec fn same_file_but_time(before: Source, after: Source) -> bool {
    &&& after.path == before.path
    &&& after.lines == before.lines
    &&& after.version_pragma == before.version_pragma
    &&& after.includes == before.includes
}

/// Whether two loads end alike: with the same file but for its time, or
/// with the same error.
pub open spec fn same_load(
    before: Result<Source, ErrorView>,
    after: Result<Source, ErrorView>,
) -> bool {
    if before is Ok {
        after is Ok && same_file_but_time(before->Ok_0, after->Ok_0)
    } else {
        after == before
    }
}

proof fn lemma_touched_search(
    before: Seq<EntryView>,
    after: Seq<EntryView>,
    name: Seq<char>,
    dirs: Seq<Seq<char>>,
    k: int,
    cause: Seq<char>,
)
    requires
        only_touched(before, after),
    ensures
        same_load(
            search_from(before, name, dirs, k, cause),
            search_from(after, name, dirs, k, cause),
        ),
    decreases dirs.len() - k,
{
    if 0 <= k < dirs.len() {
        let probe = ProbeView { dir: Some(dirs[k]), name };
        match probe_step(before, probe) {
            Step::Next(next) => {
                lemma_touched_search(before, after, name, dirs, k + 1, next);
            },
            _ => {},
        }
    }
}

/// A name loads from touched files as it loaded before: the same file but
/// for its time, or the same error.
pub proof fn lemma_touched_load(
    before: Seq<EntryView>,
    after: Seq<EntryView>,
    name: Seq<char>,
    dirs: Seq<Seq<char>>,
)
    requires
        only_touched(before, after),
    ensures
        same_load(load_source(before, name, dirs), load_source(after, name, dirs)),
{
    let probe = ProbeView { dir: None, name };
    match probe_step(before, probe) {
        Step::Next(cause) => {
            lemma_touched_search(before, after, name, dirs, 0, cause);
        },
        _ => {},
    }
}

proof fn lemma_touched_expand(
    before: Seq<EntryView>,
    after: Seq<EntryView>,
    dirs: Seq<Seq<char>>,
    default_version: usize,
    version: Option<usize>,
    branch: Seq<Seq<char>>,
    name: Seq<char>,
    forest: Forest,
    other: Forest,
)
    requires
        only_touched(before, after),
        expand(before, dirs, default_version, version, branch, name, forest) is Ok,
    ensures
        expand(after, dirs, default_version, version, branch, name, other) is Ok,
    decreases unvisited(before, branch), 0nat, 0nat,
{
    lemma_expand_unfolds(before, dirs, default_version, version, branch, name, forest);
    lemma_touched_load(before, after, name, dirs_for(branch, dirs));
    let old_src = load_source(before, name, dirs_for(branch, dirs))->Ok_0;
    let new_src = load_source(after, name, dirs_for(branch, dirs))->Ok_0;
    lemma_same_targets(old_src, new_src, old_src.lines.len() as int);
    lemma_touched_expand_all(
        before,
        after,
        dirs,
        default_version,
        held_to(branch, version, default_version, old_src),
        branch.push(old_src.path),
        old_src.targets(),
        0,
        forest.with(name, old_src),
        other.with(name, new_src),
    );
}

/// Files that are the same but for their times include the same names.
proof fn lemma_same_targets(before: Source, after: Source, n: int)
    requires
        same_file_but_time(before, after),
    ensures
        before.targets_upto(n) == after.targets_upto(n),
    decreases n,
{
    if n > 0 {
        lemma_same_targets(before, after, n - 1);
    }
}

proof fn lemma_touched_expand_all(
    before: Seq<EntryView>,
    after: Seq<EntryView>,
    dirs: Seq<Seq<char>>,
    default_version: usize,
    version: Option<usize>,
    branch: Seq<Seq<char>>,
    targets: Seq<Seq<char>>,
    k: int,
    forest: Forest,
    other: Forest,
)
    requires
        only_touched(before, after),
        expand_all(before, dirs, default_version, version, branch, targets, k, forest) is Ok,
    ensures
        expand_all(after, dirs, default_version, version, branch, targets, k, other) is Ok,
    decreases unvisited(before, branch), 1nat, targets.len() - k,
{
    if 0 <= k < targets.len() {
        lemma_touched_expand(
            before,
            after,
            dirs,
            default_version,
            version,
            branch,
            targets[k],
            forest,
            other,
        );
        lemma_touched_expand_all(
            before,
            after,
            dirs,
            default_version,
            version,
            branch,
            targets,
            k + 1,
            expand(before, dirs, default_version, version, branch, targets[k], forest)->Ok_0,
            expand(after, dirs, default_version, version, branch, targets[k], other)->Ok_0,
        );
    }
}

/// After a touch. Where a tree was built and its files have since only
/// been touched (every probe gives the path and the text that it gave,
/// with whatever modification time), the tree is built again without
/// error.
pub proof fn lemma_touch_keeps_the_build(
    before: Seq<EntryView>,
    after: Seq<EntryView>,
    root: Seq<char>,
    dirs: Seq<Seq<char>>,
    default_version: usize,
)
    requires
        only_touched(before, after),
        build_forest(before, root, dirs, default_version) is Ok,
    ensures
        build_forest(after, root, dirs, default_version) is Ok,
        build_tree(after, root, dirs, default_version) is Ok,
{
    lemma_touched_expand(
        before,
        after,
        dirs,
        default_version,
        None,
        Seq::empty(),
        root,
        Forest::empty(),
        Forest::empty(),
    );
}

/// Whether the table gives the file under each path one modification
/// time, whichever probe leads to it.
pub open spec fn one_time_for_each_path(table: Seq<EntryView>) -> bool {
    forall|first: ProbeView, second: ProbeView|
        #![trigger reading_of(table, first), reading_of(table, second)]
        reading_of(table, first) is Some && reading_of(table, first)->0 is Loaded && reading_of(
            table,
            second,
        ) is Some && reading_of(table, second)->0 is Loaded && reading_of(table, first)->0->path
            == reading_of(table, second)->0->path ==> reading_of(table, first)->0->mtime
            == reading_of(table, second)->0->mtime
}

/// Whether `report` is the modification time that some probe of the table
/// gives for the file under `path`.
pub open spec fn is_time_of(
    table: Seq<EntryView>,
    path: Seq<char>,
    report: Result<ModTime, IoFailure>,
) -> bool {
    exists|probe: ProbeView|
        (#[trigger] reading_of(table, probe)) is Some && reading_of(table, probe)->0 is Loaded
            && reading_of(table, probe)->0->path == path && report == Ok::<ModTime, IoFailure>(
            reading_of(table, probe)->0->mtime,
        )
}

/// Current after the build. A tree that was built is not expired as long
/// as the files are as the table shows them: where the table gives each
/// path one modification time, and the report on each file of the tree is
/// a time that the table gives for its path, no file is out of date.
pub proof fn lemma_built_tree_is_current(
    table: Seq<EntryView>,
    root: Seq<char>,
    dirs: Seq<Seq<char>>,
    default_version: usize,
    current: Seq<Result<ModTime, IoFailure>>,
)
    requires
        build_forest(table, root, dirs, default_version) is Ok,
        one_time_for_each_path(table),
        current.len() == build_forest(table, root, dirs, default_version)->Ok_0.nodes.len(),
        forall|i: int|
            0 <= i < current.len() ==> is_time_of(
                table,
                (#[trigger] build_forest(table, root, dirs, default_version)->Ok_0.nodes[i]).path,
                current[i],
            ),
    ensures
        expired_files(build_forest(table, root, dirs, default_version)->Ok_0.nodes, current) == Ok::<
            bool,
            ErrorView,
        >(false),
{
    let forest = build_forest(table, root, dirs, default_version)->Ok_0;
    lemma_built_files_are_of_the_table(table, root, dirs, default_version);
    lemma_built_paths_are_distinct(table, root, dirs, default_version);
    assert forall|i: int| 0 <= i < forest.nodes.len() implies current[i] == Ok::<
        ModTime,
        IoFailure,
    >(forest.nodes[i].mtime) by {
        let node = forest.nodes[i];
        lemma_node_index(forest.nodes, node.path, 0, i);
        assert(forest.node(node.path) == Some(node));
    }
    lemma_unchanged_files_are_current(forest.nodes, current);
}

proof fn lemma_expand_keeps_nodes(
    table: Seq<EntryView>,
    dirs: Seq<Seq<char>>,
    default_version: usize,
    version: Option<usize>,
    branch: Seq<Seq<char>>,
    name: Seq<char>,
    forest: Forest,
)
    ensures
        expand(table, dirs, default_version, version, branch, name, forest) matches Ok(out)
            ==> forall|path: Seq<char>| #[trigger]
            forest.node(path) is Some ==> out.node(path) is Some,
    decreases unvisited(table, branch), 0nat, 0nat,
{
    if expand(table, dirs, default_version, version, branch, name, forest) is Ok {
        lemma_expand_unfolds(table, dirs, default_version, version, branch, name, forest);
        let src = load_source(table, name, dirs_for(branch, dirs))->Ok_0;
        let entered = forest.with(name, src);
        lemma_with(forest, name, src);
        lemma_expand_all_keeps_nodes(
            table,
            dirs,
            default_version,
            held_to(branch, version, default_version, src),
            branch.push(src.path),
            src.targets(),
            0,
            entered,
        );
        let out = expand(table, dirs, default_version, version, branch, name, forest)->Ok_0;
        assert forall|path: Seq<char>| #[trigger] forest.node(path) is Some implies out.node(
            path,
        ) is Some by {
            assert(entered.node(path) is Some);
        }
    }
}

proof fn lemma_expand_all_keeps_nodes(
    table: Seq<EntryView>,
    dirs: Seq<Seq<char>>,
    default_version: usize,
    version: Option<usize>,
    branch: Seq<Seq<char>>,
    targets: Seq<Seq<char>>,
    k: int,
    forest: Forest,
)
    ensures
        expand_all(table, dirs, default_version, version, branch, targets, k, forest) matches Ok(
            out,
        ) ==> forall|path: Seq<char>| #[trigger]
            forest.node(path) is Some ==> out.node(path) is Some,
    decreases unvisited(table, branch), 1nat, targets.len() - k,
{
    if 0 <= k < targets.len() {
        lemma_expand_keeps_nodes(table, dirs, default_version, version, branch, targets[k], forest);
        match expand(table, dirs, default_version, version, branch, targets[k], forest) {
            Err(_) => {},
            Ok(next) => {
                lemma_expand_all_keeps_nodes(
                    table,
                    dirs,
                    default_version,
                    version,
                    branch,
                    targets,
                    k + 1,
                    next,
                );
            },
        }
    }
}

/// The forest in which the `j`th of several expansions is made, where they
/// all succeed: that expansion succeeds in it, and the expansions after
/// it lead from its result to the result of all.
proof fn lemma_expand_all_split(
    table: Seq<EntryView>,
    dirs: Seq<Seq<char>>,
    default_version: usize,
    version: Option<usize>,
    branch: Seq<Seq<char>>,
    targets: Seq<Seq<char>>,
    k: int,
    forest: Forest,
    j: int,
) -> (at: Forest)
    requires
        expand_all(table, dirs, default_version, version, branch, targets, k, forest) is Ok,
        0 <= k <= j < targets.len(),
    ensures
        expand(table, dirs, default_version, version, branch, targets[j], at) is Ok,
        expand_all(
            table,
            dirs,
            default_version,
            version,
            branch,
            targets,
            j + 1,
            expand(table, dirs, default_version, version, branch, targets[j], at)->Ok_0,
        ) == expand_all(table, dirs, default_version, version, branch, targets, k, forest),
    decreases j - k,
{
    if j == k {
        forest
    } else {
        let next = expand(table, dirs, default_version, version, branch, targets[k], forest)->Ok_0;
        lemma_expand_all_split(
            table,
            dirs,
            default_version,
            version,
            branch,
            targets,
            k + 1,
            next,
            j,
        )
    }
}

proof fn lemma_expand_holds_chain(
    table: Seq<EntryView>,
    dirs: Seq<Seq<char>>,
    default_version: usize,
    version: Option<usize>,
    branch: Seq<Seq<char>>,
    name: Seq<char>,
    forest: Forest,
    names: Seq<Seq<char>>,
    at_root: bool,
)
    requires
        expand(table, dirs, default_version, version, branch, name, forest) is Ok,
        names.len() > 0,
        names[0] == name,
        at_root == (branch.len() == 0),
        chain_from(table, dirs, at_root, names),
        loaded_in(table, dirs, at_root, names, names.len() - 1) is Ok,
    ensures
        expand(table, dirs, default_version, version, branch, name, forest)->Ok_0.node(
            loaded_in(table, dirs, at_root, names, names.len() - 1)->Ok_0.path,
        ) is Some,
    decreases names.len(),
{
    let out = expand(table, dirs, default_version, version, branch, name, forest)->Ok_0;
    let src = load_source(table, name, dirs_for(branch, dirs))->Ok_0;
    assert(loaded_in(table, dirs, at_root, names, 0) == Ok::<Source, ErrorView>(src));
    if names.len() == 1 {
        lemma_expand_keeps_branch(table, dirs, default_version, version, branch, name, forest);
        lemma_node_has_path(out, out.target(name)->0);
    } else {
        let below = branch.push(src.path);
        let held = held_to(branch, version, default_version, src);
        let k = choose|k: int| 0 <= k < src.targets().len() && src.targets()[k] == names[1];
        let at = lemma_expand_all_split(
            table,
            dirs,
            default_version,
            held,
            below,
            src.targets(),
            0,
            forest.with(name, src),
            k,
        );
        let next = expand(table, dirs, default_version, held, below, src.targets()[k], at)->Ok_0;
        let rest = names.skip(1);
        assert forall|i: int| 0 <= i < rest.len() implies #[trigger] loaded_in(
            table,
            dirs,
            false,
            rest,
            i,
        ) == loaded_in(table, dirs, at_root, names, i + 1) by {}
        lemma_expand_holds_chain(
            table,
            dirs,
            default_version,
            held,
            below,
            src.targets()[k],
            at,
            rest,
            false,
        );
        lemma_expand_all_keeps_nodes(
            table,
            dirs,
            default_version,
            held,
            below,
            src.targets(),
            k + 1,
            next,
        );
    }
}

/// Whether some file that the root reaches opened under `path`.
pub open spec fn is_reached_path(
    table: Seq<EntryView>,
    root: Seq<char>,
    dirs: Seq<Seq<char>>,
    path: Seq<char>,
) -> bool {
    exists|src: Source| #[trigger] reached(table, root, dirs, src) && src.path == path
}

/// Exactly what the root reaches. The paths of the files of a tree that
/// was built are exactly the paths of the files that the root reaches by
/// chains of includes, as the table shows the files: a file that is
/// reached has its entry, and a file that is reached no more has none.
pub proof fn lemma_built_files_are_exactly_the_reached(
    table: Seq<EntryView>,
    root: Seq<char>,
    dirs: Seq<Seq<char>>,
    default_version: usize,
)
    requires
        build_forest(table, root, dirs, default_version) is Ok,
    ensures
        forall|path: Seq<char>|
            (#[trigger] build_forest(table, root, dirs, default_version)->Ok_0.node(path)) is Some
                <==> is_reached_path(table, root, dirs, path),
{
    let forest = build_forest(table, root, dirs, default_version)->Ok_0;
    lemma_built_files_are_reached(table, root, dirs, default_version);
    assert forall|path: Seq<char>| (#[trigger] forest.node(path)) is Some implies is_reached_path(
        table,
        root,
        dirs,
        path,
    ) by {
        lemma_node_has_path(forest, path);
    }
    assert forall|path: Seq<char>| is_reached_path(table, root, dirs, path) implies (
    #[trigger] forest.node(path)) is Some by {
        let src = choose|src: Source| #[trigger]
            reached(table, root, dirs, src) && src.path == path;
        let names = choose|names: Seq<Seq<char>>|
            include_chain(table, root, dirs, names) && #[trigger] loaded_in(
                table,
                dirs,
                true,
                names,
                names.len() - 1,
            ) == Ok::<Source, ErrorView>(src);
        lemma_expand_holds_chain(
            table,
            dirs,
            default_version,
            None,
            Seq::empty(),
            root,
            Forest::empty(),
            names,
            true,
        );
    }
}

} // verus!
