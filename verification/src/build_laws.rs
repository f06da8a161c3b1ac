//! What holds of every tree that a build gives: the files on the branch
//! stay as they are, every file agrees on the version, every file is
//! reached from the root, no file is reached through itself, and no
//! include directive is left without its file.
use crate::error::{ErrorView, ProbeView};
use crate::files::EntryView;
use crate::forest::{lemma_with, Forest};
use crate::preprocess::{load_source, probe_step, search_from, Source, Step};
use crate::tree::{
    build_forest, dirs_for, expand, expand_all, lemma_expand_all_linked, lemma_expand_linked,
    lemma_loaded_is_opened, lemma_unvisited_decreases, unvisited, version_differs,
};
use vstd::prelude::*;

verus! {

/// The version that the files below the file `src` are held to.
pub open spec fn held_to(
    branch: Seq<Seq<char>>,
    version: Option<usize>,
    default_version: usize,
    src: Source,
) -> Option<usize> {
    if branch.len() == 0 {
        Some(src.version_or(default_version))
    } else {
        version
    }
}

/// Whether the expansion of `name` goes into the files that `name`
/// includes: whether `name` loads, and is neither on the branch nor of
/// another version.
pub open spec fn enters(
    table: Seq<EntryView>,
    dirs: Seq<Seq<char>>,
    version: Option<usize>,
    branch: Seq<Seq<char>>,
    name: Seq<char>,
) -> bool {
    &&& load_source(table, name, dirs_for(branch, dirs)) is Ok
    &&& !branch.contains(load_source(table, name, dirs_for(branch, dirs))->Ok_0.path)
    &&& !version_differs(version, load_source(table, name, dirs_for(branch, dirs))->Ok_0)
}

/// Cycle. A name that leads to a file of the branch is refused: its
/// expansion fails with the branch, from the root on, and that file after
/// it.
pub proof fn lemma_cycle_is_refused(
    table: Seq<EntryView>,
    dirs: Seq<Seq<char>>,
    default_version: usize,
    version: Option<usize>,
    branch: Seq<Seq<char>>,
    name: Seq<char>,
    forest: Forest,
)
    requires
        load_source(table, name, dirs_for(branch, dirs)) is Ok,
        branch.contains(load_source(table, name, dirs_for(branch, dirs))->Ok_0.path),
    ensures
        expand(table, dirs, default_version, version, branch, name, forest) == Err::<
            Forest,
            ErrorView,
        >(
            ErrorView::Cycle(
                branch.push(load_source(table, name, dirs_for(branch, dirs))->Ok_0.path),
            ),
        ),
{
}

/// Version mismatch. A file that is not on the branch and declares
/// another version than the one it is held to is refused: its expansion
/// fails with the version held to, the version declared, and the name of
/// the file as it is written where the file is asked for.
pub proof fn lemma_other_version_is_refused(
    table: Seq<EntryView>,
    dirs: Seq<Seq<char>>,
    default_version: usize,
    version: usize,
    branch: Seq<Seq<char>>,
    name: Seq<char>,
    forest: Forest,
)
    requires
        load_source(table, name, dirs_for(branch, dirs)) is Ok,
        !branch.contains(load_source(table, name, dirs_for(branch, dirs))->Ok_0.path),
        load_source(table, name, dirs_for(branch, dirs))->Ok_0.declared() is Some,
        load_source(table, name, dirs_for(branch, dirs))->Ok_0.declared() != Some(version),
    ensures
        expand(table, dirs, default_version, Some(version), branch, name, forest) == Err::<
            Forest,
            ErrorView,
        >(
            ErrorView::VersionMismatch {
                root_version: version,
                src_version: load_source(table, name, dirs_for(branch, dirs))->Ok_0.declared()->0,
                src_path: name,
            },
        ),
{
}

/// An expansion that succeeds enters its file, and is the expansion of the
/// files included, with the file on the branch and in the forest.
pub proof fn lemma_expand_unfolds(
    table: Seq<EntryView>,
    dirs: Seq<Seq<char>>,
    default_version: usize,
    version: Option<usize>,
    branch: Seq<Seq<char>>,
    name: Seq<char>,
    forest: Forest,
)
    requires
        expand(table, dirs, default_version, version, branch, name, forest) is Ok,
    ensures
        enters(table, dirs, version, branch, name),
        ({
            let src = load_source(table, name, dirs_for(branch, dirs))->Ok_0;
            &&& expand(table, dirs, default_version, version, branch, name, forest) == expand_all(
                table,
                dirs,
                default_version,
                held_to(branch, version, default_version, src),
                branch.push(src.path),
                src.targets(),
                0,
                forest.with(name, src),
            )
            &&& unvisited(table, branch.push(src.path)) < unvisited(table, branch)
        }),
{
    let src = load_source(table, name, dirs_for(branch, dirs))->Ok_0;
    lemma_loaded_is_opened(table, name, dirs_for(branch, dirs));
    lemma_unvisited_decreases(table, branch, src.path);
}

/// The files on the branch stay as they are: an expansion changes neither
/// the file under a path that is on the branch, nor the link of a name
/// that leads to such a path.
pub proof fn lemma_expand_keeps_branch(
    table: Seq<EntryView>,
    dirs: Seq<Seq<char>>,
    default_version: usize,
    version: Option<usize>,
    branch: Seq<Seq<char>>,
    name: Seq<char>,
    forest: Forest,
)
    ensures
        expand(table, dirs, default_version, version, branch, name, forest) matches Ok(out) ==> {
            &&& forall|path: Seq<char>|
                branch.contains(path) ==> #[trigger] out.node(path) == forest.node(path)
            &&& forall|other: Seq<char>|
                leads_to_branch(table, dirs, branch, other) ==> #[trigger] out.target(other)
                    == forest.target(other)
            &&& out.file(name) == Some(load_source(table, name, dirs_for(branch, dirs))->Ok_0)
        },
    decreases unvisited(table, branch), 0nat, 0nat,
{
    if expand(table, dirs, default_version, version, branch, name, forest) is Ok {
        lemma_expand_unfolds(table, dirs, default_version, version, branch, name, forest);
        let src = load_source(table, name, dirs_for(branch, dirs))->Ok_0;
        let below = branch.push(src.path);
        let entered = forest.with(name, src);
        let held = held_to(branch, version, default_version, src);
        lemma_with(forest, name, src);
        lemma_expand_all_keeps_branch(
            table,
            dirs,
            default_version,
            held,
            below,
            src.targets(),
            0,
            entered,
        );
        let out = expand_all(
            table,
            dirs,
            default_version,
            held,
            below,
            src.targets(),
            0,
            entered,
        )->Ok_0;
        assert(below[branch.len() as int] == src.path);
        assert forall|path: Seq<char>| branch.contains(path) implies #[trigger] out.node(path)
            == forest.node(path) by {
            let i = choose|i: int| 0 <= i < branch.len() && branch[i] == path;
            assert(below[i] == path);
        }
        assert forall|other: Seq<char>|
            leads_to_branch(table, dirs, branch, other) implies #[trigger] out.target(other)
            == forest.target(other) by {
            let led = load_source(table, other, dirs)->Ok_0.path;
            let i = choose|i: int| 0 <= i < branch.len() && branch[i] == led;
            assert(below[i] == led);
        }
    }
}

/// Whether `name`, searched in the directories, leads to a file of the
/// branch.
pub open spec fn leads_to_branch(
    table: Seq<EntryView>,
    dirs: Seq<Seq<char>>,
    branch: Seq<Seq<char>>,
    name: Seq<char>,
) -> bool {
    load_source(table, name, dirs) is Ok && branch.contains(load_source(table, name, dirs)->Ok_0.path)
}

/// The same of the expansion of several files.
pub proof fn lemma_expand_all_keeps_branch(
    table: Seq<EntryView>,
    dirs: Seq<Seq<char>>,
    default_version: usize,
    version: Option<usize>,
    branch: Seq<Seq<char>>,
    targets: Seq<Seq<char>>,
    k: int,
    forest: Forest,
)
    ensures
        expand_all(table, dirs, default_version, version, branch, targets, k, forest) matches Ok(
            out,
        ) ==> {
            &&& forall|path: Seq<char>|
                branch.contains(path) ==> #[trigger] out.node(path) == forest.node(path)
            &&& forall|other: Seq<char>|
                leads_to_branch(table, dirs, branch, other) ==> #[trigger] out.target(other)
                    == forest.target(other)
        },
    decreases unvisited(table, branch), 1nat, targets.len() - k,
{
    if 0 <= k < targets.len() {
        lemma_expand_keeps_branch(table, dirs, default_version, version, branch, targets[k], forest);
        match expand(table, dirs, default_version, version, branch, targets[k], forest) {
            Err(_) => {},
            Ok(next) => {
                lemma_expand_all_keeps_branch(
                    table,
                    dirs,
                    default_version,
                    version,
                    branch,
                    targets,
                    k + 1,
                    next,
                );
            },
        }
    }
}

/// Whether the file declares the version `version` or none.
pub open spec fn agrees(src: Source, version: usize) -> bool {
    src.declared() is None || src.declared() == Some(version)
}

/// Whether every file of the forest declares the version `version` or none.
pub open spec fn all_agree(forest: Forest, version: usize) -> bool {
    forall|path: Seq<char>| #[trigger]
        forest.node(path) is Some ==> agrees(forest.node(path)->0, version)
}

proof fn lemma_expand_versions(
    table: Seq<EntryView>,
    dirs: Seq<Seq<char>>,
    default_version: usize,
    version: usize,
    branch: Seq<Seq<char>>,
    name: Seq<char>,
    forest: Forest,
)
    requires
        branch.len() > 0,
        all_agree(forest, version),
    ensures
        expand(table, dirs, default_version, Some(version), branch, name, forest) matches Ok(out)
            ==> all_agree(out, version),
    decreases unvisited(table, branch), 0nat, 0nat,
{
    if expand(table, dirs, default_version, Some(version), branch, name, forest) is Ok {
        lemma_expand_unfolds(table, dirs, default_version, Some(version), branch, name, forest);
        let src = load_source(table, name, dirs_for(branch, dirs))->Ok_0;
        let entered = forest.with(name, src);
        lemma_with(forest, name, src);
        lemma_expand_all_versions(
            table,
            dirs,
            default_version,
            version,
            branch.push(src.path),
            src.targets(),
            0,
            entered,
        );
    }
}

proof fn lemma_expand_all_versions(
    table: Seq<EntryView>,
    dirs: Seq<Seq<char>>,
    default_version: usize,
    version: usize,
    branch: Seq<Seq<char>>,
    targets: Seq<Seq<char>>,
    k: int,
    forest: Forest,
)
    requires
        branch.len() > 0,
        all_agree(forest, version),
    ensures
        expand_all(table, dirs, default_version, Some(version), branch, targets, k, forest) matches Ok(
            out,
        ) ==> all_agree(out, version),
    decreases unvisited(table, branch), 1nat, targets.len() - k,
{
    if 0 <= k < targets.len() {
        lemma_expand_versions(table, dirs, default_version, version, branch, targets[k], forest);
        match expand(table, dirs, default_version, Some(version), branch, targets[k], forest) {
            Err(_) => {},
            Ok(next) => {
                lemma_expand_all_versions(
                    table,
                    dirs,
                    default_version,
                    version,
                    branch,
                    targets,
                    k + 1,
                    next,
                );
            },
        }
    }
}

/// Version consistency. In a tree that was built, the root is the file
/// that the name of the root loads, and every file declares the version of
/// the tree or none: the version that the root declares, or the default
/// version where the root declares none.
pub proof fn lemma_built_versions_agree(
    table: Seq<EntryView>,
    root: Seq<char>,
    dirs: Seq<Seq<char>>,
    default_version: usize,
)
    requires
        build_forest(table, root, dirs, default_version) is Ok,
    ensures
        ({
            let forest = build_forest(table, root, dirs, default_version)->Ok_0;
            &&& forest.file(root) == Some(load_source(table, root, Seq::empty())->Ok_0)
            &&& all_agree(forest, forest.file(root)->0.version_or(default_version))
        }),
{
    let none = Seq::<Seq<char>>::empty();
    lemma_expand_keeps_branch(table, dirs, default_version, None, none, root, Forest::empty());
    let src = load_source(table, root, Seq::empty())->Ok_0;
    let version = src.version_or(default_version);
    let entered = Forest::empty().with(root, src);
    lemma_with(Forest::empty(), root, src);
    lemma_expand_all_versions(
        table,
        dirs,
        default_version,
        version,
        none.push(src.path),
        src.targets(),
        0,
        entered,
    );
}

/// The file that the `i`th name of a chain loads: the first name by
/// itself where the chain starts at the root, every other name searched in
/// the directories.
pub open spec fn loaded_in(
    table: Seq<EntryView>,
    dirs: Seq<Seq<char>>,
    at_root: bool,
    names: Seq<Seq<char>>,
    i: int,
) -> Result<Source, ErrorView> {
    load_source(
        table,
        names[i],
        if at_root && i == 0 {
            Seq::empty()
        } else {
            dirs
        },
    )
}

/// Whether each name of `names` but the last loads a file that includes
/// the next name.
pub open spec fn chain_from(
    table: Seq<EntryView>,
    dirs: Seq<Seq<char>>,
    at_root: bool,
    names: Seq<Seq<char>>,
) -> bool {
    forall|i: int|
        0 <= i < names.len() - 1 ==> (#[trigger] loaded_in(table, dirs, at_root, names, i)) is Ok
            && loaded_in(table, dirs, at_root, names, i)->Ok_0.targets().contains(names[i + 1])
}

/// Whether `names` is a chain of includes that starts at the root: the
/// first name is the root, and each name but the last loads a file that
/// includes the next.
pub open spec fn include_chain(
    table: Seq<EntryView>,
    root: Seq<char>,
    dirs: Seq<Seq<char>>,
    names: Seq<Seq<char>>,
) -> bool {
    &&& names.len() > 0
    &&& names[0] == root
    &&& chain_from(table, dirs, true, names)
}

/// Whether `src` is reached from the root: whether it is the file that the
/// last name of some chain of includes from the root loads.
pub open spec fn reached(
    table: Seq<EntryView>,
    root: Seq<char>,
    dirs: Seq<Seq<char>>,
    src: Source,
) -> bool {
    exists|names: Seq<Seq<char>>|
        include_chain(table, root, dirs, names) && #[trigger] loaded_in(
            table,
            dirs,
            true,
            names,
            names.len() - 1,
        ) == Ok::<Source, ErrorView>(src)
}

/// Whether every file of the forest is reached from the root.
pub open spec fn all_reached(
    table: Seq<EntryView>,
    root: Seq<char>,
    dirs: Seq<Seq<char>>,
    forest: Forest,
) -> bool {
    forall|path: Seq<char>| #[trigger]
        forest.node(path) is Some ==> reached(table, root, dirs, forest.node(path)->0)
}

proof fn lemma_expand_reached(
    table: Seq<EntryView>,
    dirs: Seq<Seq<char>>,
    default_version: usize,
    version: Option<usize>,
    branch: Seq<Seq<char>>,
    name: Seq<char>,
    forest: Forest,
    names: Seq<Seq<char>>,
)
    requires
        include_chain(table, names[0], dirs, names),
        names.len() == branch.len() + 1,
        names.last() == name,
        all_reached(table, names[0], dirs, forest),
    ensures
        expand(table, dirs, default_version, version, branch, name, forest) matches Ok(out)
            ==> all_reached(table, names[0], dirs, out),
    decreases unvisited(table, branch), 0nat, 0nat,
{
    if expand(table, dirs, default_version, version, branch, name, forest) is Ok {
        lemma_expand_unfolds(table, dirs, default_version, version, branch, name, forest);
        let src = load_source(table, name, dirs_for(branch, dirs))->Ok_0;
        let entered = forest.with(name, src);
        lemma_with(forest, name, src);
        lemma_expand_all_reached(
            table,
            dirs,
            default_version,
            held_to(branch, version, default_version, src),
            branch.push(src.path),
            src.targets(),
            0,
            entered,
            names,
        );
    }
}

proof fn lemma_expand_all_reached(
    table: Seq<EntryView>,
    dirs: Seq<Seq<char>>,
    default_version: usize,
    version: Option<usize>,
    branch: Seq<Seq<char>>,
    targets: Seq<Seq<char>>,
    k: int,
    forest: Forest,
    names: Seq<Seq<char>>,
)
    requires
        include_chain(table, names[0], dirs, names),
        names.len() == branch.len(),
        loaded_in(table, dirs, true, names, names.len() - 1) is Ok,
        loaded_in(table, dirs, true, names, names.len() - 1)->Ok_0.targets() == targets,
        all_reached(table, names[0], dirs, forest),
    ensures
        expand_all(table, dirs, default_version, version, branch, targets, k, forest) matches Ok(
            out,
        ) ==> all_reached(table, names[0], dirs, out),
    decreases unvisited(table, branch), 1nat, targets.len() - k,
{
    if 0 <= k < targets.len() {
        let longer = names.push(targets[k]);
        assert forall|i: int| 0 <= i < longer.len() - 1 implies (#[trigger] loaded_in(
            table,
            dirs,
            true,
            longer,
            i,
        )) is Ok && loaded_in(table, dirs, true, longer, i)->Ok_0.targets().contains(
            longer[i + 1],
        ) by {
            assert(loaded_in(table, dirs, true, longer, i) == loaded_in(
                table,
                dirs,
                true,
                names,
                i,
            ));
        }
        lemma_expand_reached(
            table,
            dirs,
            default_version,
            version,
            branch,
            targets[k],
            forest,
            longer,
        );
        match expand(table, dirs, default_version, version, branch, targets[k], forest) {
            Err(_) => {},
            Ok(next) => {
                lemma_expand_all_reached(
                    table,
                    dirs,
                    default_version,
                    version,
                    branch,
                    targets,
                    k + 1,
                    next,
                    names,
                );
            },
        }
    }
}

/// Only what the root reaches. Every file of a tree that was built is
/// reached from the root by a chain of includes, as the table shows the
/// files: a file that no chain leads to any more is not in the tree.
pub proof fn lemma_built_files_are_reached(
    table: Seq<EntryView>,
    root: Seq<char>,
    dirs: Seq<Seq<char>>,
    default_version: usize,
)
    requires
        build_forest(table, root, dirs, default_version) is Ok,
    ensures
        all_reached(table, root, dirs, build_forest(table, root, dirs, default_version)->Ok_0),
{
    let names = seq![root];
    lemma_expand_reached(
        table,
        dirs,
        default_version,
        None,
        Seq::empty(),
        root,
        Forest::empty(),
        names,
    );
}

/// Each of several expansions that succeed one after the other succeeds,
/// in the forest that the ones before it have left.
proof fn lemma_expand_all_each(
    table: Seq<EntryView>,
    dirs: Seq<Seq<char>>,
    default_version: usize,
    version: Option<usize>,
    branch: Seq<Seq<char>>,
    targets: Seq<Seq<char>>,
    k: int,
    forest: Forest,
    j: int,
) -> (at: Forest)
    requires
        expand_all(table, dirs, default_version, version, branch, targets, k, forest) is Ok,
        0 <= k <= j < targets.len(),
    ensures
        expand(table, dirs, default_version, version, branch, targets[j], at) is Ok,
    decreases j - k,
{
    if j == k {
        forest
    } else {
        let next = expand(table, dirs, default_version, version, branch, targets[k], forest)->Ok_0;
        lemma_expand_all_each(
            table,
            dirs,
            default_version,
            version,
            branch,
            targets,
            k + 1,
            next,
            j,
        )
    }
}

/// Where an expansion succeeds, every chain of includes from the file
/// expanded leads through files that load, none of them on the branch and
/// no two of them the same.
proof fn lemma_expand_chain_simple(
    table: Seq<EntryView>,
    dirs: Seq<Seq<char>>,
    default_version: usize,
    version: Option<usize>,
    branch: Seq<Seq<char>>,
    name: Seq<char>,
    forest: Forest,
    names: Seq<Seq<char>>,
    at_root: bool,
)
    requires
        expand(table, dirs, default_version, version, branch, name, forest) is Ok,
        names.len() > 0,
        names[0] == name,
        at_root == (branch.len() == 0),
        chain_from(table, dirs, at_root, names),
    ensures
        forall|i: int|
            0 <= i < names.len() ==> (#[trigger] loaded_in(
                table,
                dirs,
                at_root,
                names,
                i,
            )) is Ok && !branch.contains(
                loaded_in(table, dirs, at_root, names, i)->Ok_0.path,
            ),
        forall|i: int, j: int|
            0 <= i < j < names.len() ==> (#[trigger] loaded_in(
                table,
                dirs,
                at_root,
                names,
                i,
            ))->Ok_0.path != (#[trigger] loaded_in(
                table,
                dirs,
                at_root,
                names,
                j,
            ))->Ok_0.path,
    decreases names.len(),
{
    let src = load_source(table, name, dirs_for(branch, dirs))->Ok_0;
    let below = branch.push(src.path);
    let held = held_to(branch, version, default_version, src);
    assert(loaded_in(table, dirs, at_root, names, 0) == Ok::<Source, ErrorView>(src));
    if names.len() > 1 {
        let k = choose|k: int| 0 <= k < src.targets().len() && src.targets()[k] == names[1];
        let at = lemma_expand_all_each(
            table,
            dirs,
            default_version,
            held,
            below,
            src.targets(),
            0,
            forest.with(name, src),
            k,
        );
        let rest = names.skip(1);
        assert forall|i: int| 0 <= i < rest.len() implies #[trigger] loaded_in(
            table,
            dirs,
            false,
            rest,
            i,
        ) == loaded_in(table, dirs, at_root, names, i + 1) by {}
        lemma_expand_chain_simple(
            table,
            dirs,
            default_version,
            held,
            below,
            src.targets()[k],
            at,
            rest,
            false,
        );
        assert(below[branch.len() as int] == src.path);
        assert forall|i: int| 0 <= i < names.len() implies (#[trigger] loaded_in(
            table,
            dirs,
            at_root,
            names,
            i,
        )) is Ok && !branch.contains(loaded_in(table, dirs, at_root, names, i)->Ok_0.path) by {
            if i > 0 {
                let led = loaded_in(table, dirs, false, rest, i - 1);
                if branch.contains(led->Ok_0.path) {
                    let n = choose|n: int| 0 <= n < branch.len() && branch[n] == led->Ok_0.path;
                    assert(below[n] == led->Ok_0.path);
                }
            }
        }
        assert forall|i: int, j: int| 0 <= i < j < names.len() implies (#[trigger] loaded_in(
            table,
            dirs,
            at_root,
            names,
            i,
        ))->Ok_0.path != (#[trigger] loaded_in(table, dirs, at_root, names, j))->Ok_0.path by {
            assert(loaded_in(table, dirs, false, rest, j - 1) is Ok);
            if i > 0 {
                assert(loaded_in(table, dirs, false, rest, i - 1) is Ok);
            }
        }
    }
}

/// No cycle. Where a tree was built, every chain of includes from the
/// root leads through files that load, no two of them the same: a tree in
/// which some file is reached through itself is not built.
pub proof fn lemma_built_tree_has_no_cycle(
    table: Seq<EntryView>,
    root: Seq<char>,
    dirs: Seq<Seq<char>>,
    default_version: usize,
    names: Seq<Seq<char>>,
)
    requires
        build_forest(table, root, dirs, default_version) is Ok,
        include_chain(table, root, dirs, names),
    ensures
        forall|i: int|
            0 <= i < names.len() ==> (#[trigger] loaded_in(table, dirs, true, names, i)) is Ok,
        forall|i: int, j: int|
            0 <= i < j < names.len() ==> (#[trigger] loaded_in(table, dirs, true, names, i))->Ok_0.path
                != (#[trigger] loaded_in(table, dirs, true, names, j))->Ok_0.path,
{
    lemma_expand_chain_simple(
        table,
        dirs,
        default_version,
        None,
        Seq::empty(),
        root,
        Forest::empty(),
        names,
        true,
    );
}

/// Whether the forest has the file of every include directive of `src`.
pub open spec fn has_its_files(forest: Forest, src: Source) -> bool {
    forall|k: int| 0 <= k < src.targets().len() ==> forest.file(#[trigger] src.targets()[k]) is Some
}

/// Whether the forest has the file of every include directive of each of
/// its files that is not on the branch.
pub open spec fn closed_off(forest: Forest, branch: Seq<Seq<char>>) -> bool {
    forall|path: Seq<char>|
        !branch.contains(path) && #[trigger] forest.node(path) is Some ==> has_its_files(
            forest,
            forest.node(path)->0,
        )
}

proof fn lemma_expand_closed(
    table: Seq<EntryView>,
    dirs: Seq<Seq<char>>,
    default_version: usize,
    version: Option<usize>,
    branch: Seq<Seq<char>>,
    name: Seq<char>,
    forest: Forest,
)
    requires
        forest.linked(),
        closed_off(forest, branch),
    ensures
        expand(table, dirs, default_version, version, branch, name, forest) matches Ok(out)
            ==> closed_off(out, branch),
    decreases unvisited(table, branch), 0nat, 0nat,
{
    if expand(table, dirs, default_version, version, branch, name, forest) is Ok {
        lemma_expand_unfolds(table, dirs, default_version, version, branch, name, forest);
        let src = load_source(table, name, dirs_for(branch, dirs))->Ok_0;
        let below = branch.push(src.path);
        let held = held_to(branch, version, default_version, src);
        let entered = forest.with(name, src);
        lemma_with(forest, name, src);
        assert(below[branch.len() as int] == src.path);
        assert forall|path: Seq<char>|
            !below.contains(path) && #[trigger] entered.node(path) is Some implies has_its_files(
            entered,
            entered.node(path)->0,
        ) by {
            if branch.contains(path) {
                let n = choose|n: int| 0 <= n < branch.len() && branch[n] == path;
                assert(below[n] == path);
            }
        }
        lemma_expand_all_closed(
            table,
            dirs,
            default_version,
            held,
            below,
            src.targets(),
            0,
            entered,
        );
        lemma_expand_all_linked(
            table,
            dirs,
            default_version,
            held,
            below,
            src.targets(),
            0,
            entered,
        );
        lemma_expand_all_keeps_branch(
            table,
            dirs,
            default_version,
            held,
            below,
            src.targets(),
            0,
            entered,
        );
    }
}

proof fn lemma_expand_all_closed(
    table: Seq<EntryView>,
    dirs: Seq<Seq<char>>,
    default_version: usize,
    version: Option<usize>,
    branch: Seq<Seq<char>>,
    targets: Seq<Seq<char>>,
    k: int,
    forest: Forest,
)
    requires
        forest.linked(),
        closed_off(forest, branch),
    ensures
        expand_all(table, dirs, default_version, version, branch, targets, k, forest) matches Ok(
            out,
        ) ==> closed_off(out, branch),
    decreases unvisited(table, branch), 1nat, targets.len() - k,
{
    if 0 <= k < targets.len() {
        lemma_expand_closed(table, dirs, default_version, version, branch, targets[k], forest);
        lemma_expand_linked(table, dirs, default_version, version, branch, targets[k], forest);
        match expand(table, dirs, default_version, version, branch, targets[k], forest) {
            Err(_) => {},
            Ok(next) => {
                lemma_expand_all_closed(
                    table,
                    dirs,
                    default_version,
                    version,
                    branch,
                    targets,
                    k + 1,
                    next,
                );
            },
        }
    }
}

/// Nothing missing. A tree that was built has its root, every link of it
/// leads to a file of it, and it has the file of every include directive
/// of each of its files.
pub proof fn lemma_built_tree_is_closed(
    table: Seq<EntryView>,
    root: Seq<char>,
    dirs: Seq<Seq<char>>,
    default_version: usize,
)
    requires
        build_forest(table, root, dirs, default_version) is Ok,
    ensures
        ({
            let forest = build_forest(table, root, dirs, default_version)->Ok_0;
            &&& forest.file(root) is Some
            &&& forest.linked()
            &&& forall|path: Seq<char>| #[trigger]
                forest.node(path) is Some ==> has_its_files(forest, forest.node(path)->0)
        }),
{
    let none = Seq::<Seq<char>>::empty();
    lemma_expand_closed(table, dirs, default_version, None, none, root, Forest::empty());
    lemma_expand_linked(table, dirs, default_version, None, none, root, Forest::empty());
}

/// Whether no two files of the forest have the same path.
pub open spec fn distinct_paths(forest: Forest) -> bool {
    forall|i: int, j: int|
        0 <= i < j < forest.nodes.len() ==> (#[trigger] forest.nodes[i]).path
            != (#[trigger] forest.nodes[j]).path
}

/// Entering a file leaves no two files under one path.
proof fn lemma_with_distinct(forest: Forest, name: Seq<char>, src: Source)
    requires
        distinct_paths(forest),
    ensures
        distinct_paths(forest.with(name, src)),
{
    crate::forest::lemma_node_index_found(forest.nodes, src.path, 0);
}

proof fn lemma_expand_distinct(
    table: Seq<EntryView>,
    dirs: Seq<Seq<char>>,
    default_version: usize,
    version: Option<usize>,
    branch: Seq<Seq<char>>,
    name: Seq<char>,
    forest: Forest,
)
    requires
        distinct_paths(forest),
    ensures
        expand(table, dirs, default_version, version, branch, name, forest) matches Ok(out)
            ==> distinct_paths(out),
    decreases unvisited(table, branch), 0nat, 0nat,
{
    if expand(table, dirs, default_version, version, branch, name, forest) is Ok {
        lemma_expand_unfolds(table, dirs, default_version, version, branch, name, forest);
        let src = load_source(table, name, dirs_for(branch, dirs))->Ok_0;
        lemma_with_distinct(forest, name, src);
        lemma_expand_all_distinct(
            table,
            dirs,
            default_version,
            held_to(branch, version, default_version, src),
            branch.push(src.path),
            src.targets(),
            0,
            forest.with(name, src),
        );
    }
}

proof fn lemma_expand_all_distinct(
    table: Seq<EntryView>,
    dirs: Seq<Seq<char>>,
    default_version: usize,
    version: Option<usize>,
    branch: Seq<Seq<char>>,
    targets: Seq<Seq<char>>,
    k: int,
    forest: Forest,
)
    requires
        distinct_paths(forest),
    ensures
        expand_all(table, dirs, default_version, version, branch, targets, k, forest) matches Ok(
            out,
        ) ==> distinct_paths(out),
    decreases unvisited(table, branch), 1nat, targets.len() - k,
{
    if 0 <= k < targets.len() {
        lemma_expand_distinct(table, dirs, default_version, version, branch, targets[k], forest);
        match expand(table, dirs, default_version, version, branch, targets[k], forest) {
            Err(_) => {},
            Ok(next) => {
                lemma_expand_all_distinct(
                    table,
                    dirs,
                    default_version,
                    version,
                    branch,
                    targets,
                    k + 1,
                    next,
                );
            },
        }
    }
}

/// One entry for each file. No two files of a tree that was built have
/// the same path, however many include directives lead to a file.
pub proof fn lemma_built_paths_are_distinct(
    table: Seq<EntryView>,
    root: Seq<char>,
    dirs: Seq<Seq<char>>,
    default_version: usize,
)
    requires
        build_forest(table, root, dirs, default_version) is Ok,
    ensures
        distinct_paths(build_forest(table, root, dirs, default_version)->Ok_0),
{
    lemma_expand_distinct(
        table,
        dirs,
        default_version,
        None,
        Seq::empty(),
        root,
        Forest::empty(),
    );
}

/// Whether `list` is what a cycle error below `branch` carries: the
/// branch, perhaps more files below it, and at the end a file that the
/// list holds already.
pub open spec fn closes_cycle(branch: Seq<Seq<char>>, list: Seq<Seq<char>>) -> bool {
    &&& list.len() > branch.len()
    &&& list.len() >= 2
    &&& list.subrange(0, branch.len() as int) == branch
    &&& list.drop_last().contains(list.last())
}

/// A load fails for want of a reading or for a failure of the file system,
/// never with a cycle.
pub proof fn lemma_load_fails_without_cycle(
    table: Seq<EntryView>,
    name: Seq<char>,
    dirs: Seq<Seq<char>>,
)
    ensures
        load_source(table, name, dirs) matches Err(e) ==> !(e is Cycle),
{
    match probe_step(table, ProbeView { dir: None, name }) {
        Step::Next(cause) => {
            lemma_search_fails_without_cycle(table, name, dirs, 0, cause);
        },
        _ => {},
    }
}

proof fn lemma_search_fails_without_cycle(
    table: Seq<EntryView>,
    name: Seq<char>,
    dirs: Seq<Seq<char>>,
    k: int,
    cause: Seq<char>,
)
    ensures
        search_from(table, name, dirs, k, cause) matches Err(e) ==> !(e is Cycle),
    decreases dirs.len() - k,
{
    if 0 <= k < dirs.len() {
        match probe_step(table, ProbeView { dir: Some(dirs[k]), name }) {
            Step::Next(next) => {
                lemma_search_fails_without_cycle(table, name, dirs, k + 1, next);
            },
            _ => {},
        }
    }
}

/// The branch of a cycle error. Where an expansion fails with a cycle, the
/// error carries the branch, the files below it that lead to the cycle,
/// and at the end the file that came a second time; where the root is
/// expanded, the list starts with the root.
pub proof fn lemma_cycle_error_closes(
    table: Seq<EntryView>,
    dirs: Seq<Seq<char>>,
    default_version: usize,
    version: Option<usize>,
    branch: Seq<Seq<char>>,
    name: Seq<char>,
    forest: Forest,
)
    ensures
        expand(table, dirs, default_version, version, branch, name, forest) matches Err(
            ErrorView::Cycle(list),
        ) ==> closes_cycle(branch, list) && list[branch.len() as int] == load_source(
            table,
            name,
            dirs_for(branch, dirs),
        )->Ok_0.path,
    decreases unvisited(table, branch), 0nat, 0nat,
{
    match load_source(table, name, dirs_for(branch, dirs)) {
        Err(_) => {
            lemma_load_fails_without_cycle(table, name, dirs_for(branch, dirs));
        },
        Ok(src) => {
            if branch.contains(src.path) {
                let list = branch.push(src.path);
                assert(list.drop_last() =~= branch);
            } else if !version_differs(version, src) {
                let below = branch.push(src.path);
                lemma_loaded_is_opened(table, name, dirs_for(branch, dirs));
                lemma_unvisited_decreases(table, branch, src.path);
                lemma_cycle_error_closes_all(
                    table,
                    dirs,
                    default_version,
                    held_to(branch, version, default_version, src),
                    below,
                    src.targets(),
                    0,
                    forest.with(name, src),
                );
                match expand(table, dirs, default_version, version, branch, name, forest) {
                    Err(ErrorView::Cycle(list)) => {
                        assert(list.subrange(0, branch.len() as int) =~= below.subrange(
                            0,
                            branch.len() as int,
                        ));
                        assert(below.subrange(0, branch.len() as int) =~= branch);
                        assert(list[branch.len() as int] == list.subrange(
                            0,
                            below.len() as int,
                        )[branch.len() as int]);
                    },
                    _ => {},
                }
            }
        },
    }
}

proof fn lemma_cycle_error_closes_all(
    table: Seq<EntryView>,
    dirs: Seq<Seq<char>>,
    default_version: usize,
    version: Option<usize>,
    branch: Seq<Seq<char>>,
    targets: Seq<Seq<char>>,
    k: int,
    forest: Forest,
)
    ensures
        expand_all(table, dirs, default_version, version, branch, targets, k, forest) matches Err(
            ErrorView::Cycle(list),
        ) ==> closes_cycle(branch, list),
    decreases unvisited(table, branch), 1nat, targets.len() - k,
{
    if 0 <= k < targets.len() {
        lemma_cycle_error_closes(table, dirs, default_version, version, branch, targets[k], forest);
        match expand(table, dirs, default_version, version, branch, targets[k], forest) {
            Err(_) => {},
            Ok(next) => {
                lemma_cycle_error_closes_all(
                    table,
                    dirs,
                    default_version,
                    version,
                    branch,
                    targets,
                    k + 1,
                    next,
                );
            },
        }
    }
}

/// Whether every chain of includes from the root ends in a name that
/// loads.
pub open spec fn all_chains_load(table: Seq<EntryView>, root: Seq<char>, dirs: Seq<Seq<char>>) -> bool {
    forall|names: Seq<Seq<char>>| #[trigger]
        include_chain(table, root, dirs, names) ==> loaded_in(
            table,
            dirs,
            true,
            names,
            names.len() - 1,
        ) is Ok
}

/// Whether every chain of includes from the root that goes below the root
/// ends in a file that declares the version `version` or none.
pub open spec fn all_chains_agree(
    table: Seq<EntryView>,
    root: Seq<char>,
    dirs: Seq<Seq<char>>,
    version: usize,
) -> bool {
    forall|names: Seq<Seq<char>>| #[trigger]
        include_chain(table, root, dirs, names) && names.len() > 1 ==> agrees(
            loaded_in(table, dirs, true, names, names.len() - 1)->Ok_0,
            version,
        )
}

/// A chain of includes with one more name, which the file of its last name
/// includes, is a chain of includes.
pub proof fn lemma_chain_longer(
    table: Seq<EntryView>,
    dirs: Seq<Seq<char>>,
    names: Seq<Seq<char>>,
    target: Seq<char>,
)
    requires
        include_chain(table, names[0], dirs, names),
        loaded_in(table, dirs, true, names, names.len() - 1) is Ok,
        loaded_in(table, dirs, true, names, names.len() - 1)->Ok_0.targets().contains(target),
    ensures
        include_chain(table, names[0], dirs, names.push(target)),
{
    let longer = names.push(target);
    assert forall|i: int| 0 <= i < longer.len() - 1 implies (#[trigger] loaded_in(
        table,
        dirs,
        true,
        longer,
        i,
    )) is Ok && loaded_in(table, dirs, true, longer, i)->Ok_0.targets().contains(
        longer[i + 1],
    ) by {
        assert(loaded_in(table, dirs, true, longer, i) == loaded_in(table, dirs, true, names, i));
    }
}

proof fn lemma_expand_fails_by_cycle(
    table: Seq<EntryView>,
    dirs: Seq<Seq<char>>,
    default_version: usize,
    version: Option<usize>,
    branch: Seq<Seq<char>>,
    name: Seq<char>,
    forest: Forest,
    names: Seq<Seq<char>>,
    agreed: usize,
)
    requires
        include_chain(table, names[0], dirs, names),
        names.len() == branch.len() + 1,
        names.last() == name,
        all_chains_load(table, names[0], dirs),
        all_chains_agree(table, names[0], dirs, agreed),
        branch.len() > 0 ==> version == Some(agreed),
        branch.len() == 0 ==> version is None && agreed == load_source(
            table,
            name,
            Seq::empty(),
        )->Ok_0.version_or(default_version),
    ensures
        expand(table, dirs, default_version, version, branch, name, forest) matches Err(e)
            ==> e is Cycle,
    decreases unvisited(table, branch), 0nat, 0nat,
{
    let src = load_source(table, name, dirs_for(branch, dirs))->Ok_0;
    if !branch.contains(src.path) {
        lemma_loaded_is_opened(table, name, dirs_for(branch, dirs));
        lemma_unvisited_decreases(table, branch, src.path);
        lemma_expand_all_fails_by_cycle(
            table,
            dirs,
            default_version,
            agreed,
            branch.push(src.path),
            src.targets(),
            0,
            forest.with(name, src),
            names,
        );
    }
}

proof fn lemma_expand_all_fails_by_cycle(
    table: Seq<EntryView>,
    dirs: Seq<Seq<char>>,
    default_version: usize,
    agreed: usize,
    branch: Seq<Seq<char>>,
    targets: Seq<Seq<char>>,
    k: int,
    forest: Forest,
    names: Seq<Seq<char>>,
)
    requires
        include_chain(table, names[0], dirs, names),
        names.len() == branch.len(),
        loaded_in(table, dirs, true, names, names.len() - 1) is Ok,
        loaded_in(table, dirs, true, names, names.len() - 1)->Ok_0.targets() == targets,
        all_chains_load(table, names[0], dirs),
        all_chains_agree(table, names[0], dirs, agreed),
    ensures
        expand_all(table, dirs, default_version, Some(agreed), branch, targets, k, forest) matches Err(
            e,
        ) ==> e is Cycle,
    decreases unvisited(table, branch), 1nat, targets.len() - k,
{
    if 0 <= k < targets.len() {
        lemma_chain_longer(table, dirs, names, targets[k]);
        let longer = names.push(targets[k]);
        lemma_expand_fails_by_cycle(
            table,
            dirs,
            default_version,
            Some(agreed),
            branch,
            targets[k],
            forest,
            longer,
            agreed,
        );
        match expand(table, dirs, default_version, Some(agreed), branch, targets[k], forest) {
            Err(_) => {},
            Ok(next) => {
                lemma_expand_all_fails_by_cycle(
                    table,
                    dirs,
                    default_version,
                    agreed,
                    branch,
                    targets,
                    k + 1,
                    next,
                    names,
                );
            },
        }
    }
}

/// Cycle. Where some chain of includes from the root comes to a file a
/// second time, and nothing else is wrong (every name on a chain from the
/// root loads, and every file below the root declares the version of the
/// root or none), the build fails with a cycle error. The error carries a
/// list that starts with the root and ends with a file that the list holds
/// already.
pub proof fn lemma_cycle_fails_the_build(
    table: Seq<EntryView>,
    root: Seq<char>,
    dirs: Seq<Seq<char>>,
    default_version: usize,
    names: Seq<Seq<char>>,
    first: int,
    second: int,
)
    requires
        root.len() > 0,
        include_chain(table, root, dirs, names),
        0 <= first < second < names.len(),
        loaded_in(table, dirs, true, names, first)->Ok_0.path == loaded_in(
            table,
            dirs,
            true,
            names,
            second,
        )->Ok_0.path,
        all_chains_load(table, root, dirs),
        all_chains_agree(
            table,
            root,
            dirs,
            load_source(table, root, Seq::empty())->Ok_0.version_or(default_version),
        ),
    ensures
        build_forest(table, root, dirs, default_version) matches Err(ErrorView::Cycle(list))
            && list.len() >= 2 && list[0] == load_source(table, root, Seq::empty())->Ok_0.path
            && list.drop_last().contains(list.last()),
{
    let none = Seq::<Seq<char>>::empty();
    if build_forest(table, root, dirs, default_version) is Ok {
        lemma_built_tree_has_no_cycle(table, root, dirs, default_version, names);
    }
    let start = seq![root];
    lemma_expand_fails_by_cycle(
        table,
        dirs,
        default_version,
        None,
        none,
        root,
        Forest::empty(),
        start,
        load_source(table, root, Seq::empty())->Ok_0.version_or(default_version),
    );
    lemma_cycle_error_closes(table, dirs, default_version, None, none, root, Forest::empty());
}

} // verus!
