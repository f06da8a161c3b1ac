//! More of what holds of every rendering: where each line comes from, that
//! no line comes from the place of a version pragma, and how many lines a
//! rendering has.
use crate::build_laws::lemma_built_tree_is_closed;
use crate::files::EntryView;
use crate::forest::{lemma_node_has_path, Forest};
use crate::laws::rendered_files;
use crate::preprocess::Source;
use crate::tree::{
    build_forest, included_file, lemma_unseen_decreases, lemma_unseen_shrinks, render_from, rendered_lines,
    unseen, version_line,
};
use vstd::prelude::*;

verus! {

/// Where a line of a rendering comes from: a file, and the number of the
/// line in it.
pub struct Origin {
    pub file: Source,
    pub line: int,
}

/// The origins of the lines of a rendering, line for line.
pub open spec fn render_origins(forest: Forest, src: Source, from: int, seen: Set<Seq<char>>) -> Seq<
    Origin,
>
    decreases unseen(forest, seen), src.lines.len() - from,
{
    if from < 0 || from >= src.lines.len() {
        Seq::empty()
    } else {
        match included_file(forest, src, from) {
            Some(file) => {
                if seen.contains(file.path) {
                    render_origins(forest, src, from + 1, seen)
                } else {
                    proof {
                        lemma_node_has_path(forest, forest.target(src.includes[from as usize])->0);
                        lemma_unseen_decreases(forest, seen, file.path);
                    }
                    let inner = render_from(forest, file, 0, seen.insert(file.path));
                    let after = seen.insert(file.path).union(inner.seen);
                    proof {
                        lemma_unseen_shrinks(forest, seen, after);
                    }
                    render_origins(forest, file, 0, seen.insert(file.path)) + render_origins(
                        forest,
                        src,
                        from + 1,
                        after,
                    )
                }
            },
            None => {
                let rest = render_origins(forest, src, from + 1, seen);
                if src.pragma_line() matches Some(line) && line == from {
                    rest
                } else {
                    seq![Origin { file: src, line: from }] + rest
                }
            },
        }
    }
}

/// Whether the version pragma of `file` stands in line `line`.
pub open spec fn is_pragma_line(file: Source, line: int) -> bool {
    file.pragma_line() matches Some(l) && l == line
}

/// Whether `text` is rendered from `origin`: the origin is a line of `src`
/// or of a file of the forest, the line is neither the version pragma of
/// its file nor an include directive that leads to a file of the forest,
/// and the text is that line, unchanged.
pub open spec fn is_rendered_from(forest: Forest, src: Source, origin: Origin, text: Seq<char>) -> bool {
    &&& origin.file == src || exists|path: Seq<char>| #[trigger]
        forest.node(path) == Some(origin.file)
    &&& 0 <= origin.line < origin.file.lines.len()
    &&& !is_pragma_line(origin.file, origin.line)
    &&& included_file(forest, origin.file, origin.line) is None
    &&& text == origin.file.lines[origin.line]
}

/// Whether the lines are rendered from the origins, line for line.
pub open spec fn are_rendered_from(
    forest: Forest,
    src: Source,
    origins: Seq<Origin>,
    lines: Seq<Seq<char>>,
) -> bool {
    &&& origins.len() == lines.len()
    &&& forall|k: int|
        0 <= k < lines.len() ==> is_rendered_from(forest, src, #[trigger] origins[k], lines[k])
}

/// No pragma line is rendered. Every line of a rendering is a line of the
/// file rendered or of a file of the forest, unchanged, and comes from a
/// place that is not the place of the version pragma of its file: the line
/// that is recorded as the version pragma of a file is never put out,
/// whichever file it stands in and whatever else the files hold.
pub proof fn lemma_no_pragma_line_is_rendered(
    forest: Forest,
    src: Source,
    from: int,
    seen: Set<Seq<char>>,
)
    ensures
        are_rendered_from(
            forest,
            src,
            render_origins(forest, src, from, seen),
            render_from(forest, src, from, seen).lines,
        ),
    decreases unseen(forest, seen), src.lines.len() - from,
{
    if 0 <= from < src.lines.len() {
        match included_file(forest, src, from) {
            Some(file) => {
                if seen.contains(file.path) {
                    lemma_no_pragma_line_is_rendered(forest, src, from + 1, seen);
                } else {
                    let target = forest.target(src.includes[from as usize])->0;
                    lemma_node_has_path(forest, target);
                    lemma_unseen_decreases(forest, seen, file.path);
                    let first = seen.insert(file.path);
                    lemma_no_pragma_line_is_rendered(forest, file, 0, first);
                    let inner = render_from(forest, file, 0, first);
                    let after = first.union(inner.seen);
                    lemma_unseen_shrinks(forest, seen, after);
                    lemma_no_pragma_line_is_rendered(forest, src, from + 1, after);
                }
            },
            None => {
                lemma_no_pragma_line_is_rendered(forest, src, from + 1, seen);
            },
        }
    }
}

/// One version line, and no pragma line. The first line of a flattened
/// tree declares the version of the root, or the default version where the
/// root declares none; every line after it is a line of a file of the
/// tree, unchanged, from a place that is not the place of the version
/// pragma of its file.
pub proof fn lemma_text_holds_no_pragma_line(
    forest: Forest,
    root: Seq<char>,
    default_version: usize,
)
    requires
        forest.file(root) is Some,
    ensures
        rendered_lines(forest, root, default_version).len() > 0,
        rendered_lines(forest, root, default_version)[0] == version_line(
            forest.file(root)->0.version_or(default_version),
        ),
        are_rendered_from(
            forest,
            forest.file(root)->0,
            render_origins(forest, forest.file(root)->0, 0, Set::empty()),
            rendered_lines(forest, root, default_version).subrange(
                1,
                rendered_lines(forest, root, default_version).len() as int,
            ),
        ),
{
    let src = forest.file(root)->0;
    lemma_no_pragma_line_is_rendered(forest, src, 0, Set::empty());
}

/// Whether line `i` of `src` is a plain line: neither an include directive
/// nor the version pragma.
pub open spec fn is_plain_line(src: Source, i: int) -> bool {
    &&& !(i <= usize::MAX && src.includes.contains_key(i as usize))
    &&& !is_pragma_line(src, i)
}

/// The number of plain lines of `src` from line `from` on.
pub open spec fn plain_lines(src: Source, from: int) -> nat
    decreases src.lines.len() - from,
{
    if from < 0 || from >= src.lines.len() {
        0
    } else if is_plain_line(src, from) {
        1 + plain_lines(src, from + 1)
    } else {
        plain_lines(src, from + 1)
    }
}

/// The number of plain lines of the files under `paths`, taken together.
pub open spec fn plain_lines_of(forest: Forest, paths: Seq<Seq<char>>) -> nat
    decreases paths.len(),
{
    if paths.len() == 0 {
        0
    } else {
        plain_lines_of(forest, paths.drop_last()) + plain_lines(forest.node(paths.last())->0, 0)
    }
}

/// Whether every include directive of `src` leads to a file of the forest.
pub open spec fn includes_resolve(forest: Forest, src: Source) -> bool {
    forall|i: int|
        0 <= i < src.lines.len() && i <= usize::MAX && src.includes.contains_key(i as usize)
            ==> (#[trigger] included_file(forest, src, i)) is Some
}

/// Whether every include directive of every file of the forest leads to a
/// file of the forest.
pub open spec fn all_includes_resolve(forest: Forest) -> bool {
    forall|path: Seq<char>| #[trigger]
        forest.node(path) is Some ==> includes_resolve(forest, forest.node(path)->0)
}

proof fn lemma_plain_lines_of_concat(forest: Forest, first: Seq<Seq<char>>, second: Seq<Seq<char>>)
    ensures
        plain_lines_of(forest, first + second) == plain_lines_of(forest, first) + plain_lines_of(
            forest,
            second,
        ),
    decreases second.len(),
{
    if second.len() > 0 {
        lemma_plain_lines_of_concat(forest, first, second.drop_last());
        assert((first + second).drop_last() =~= first + second.drop_last());
    }
}

/// The number of lines. Where every include directive leads to a file of
/// the forest, a rendering puts out as many lines as the file rendered has
/// plain lines, and the files that it goes into have plain lines, taken
/// together: each of these files gives its plain lines once, and a file
/// that was seen before gives none.
pub proof fn lemma_rendering_counts_plain_lines(
    forest: Forest,
    src: Source,
    from: int,
    seen: Set<Seq<char>>,
)
    requires
        all_includes_resolve(forest),
        includes_resolve(forest, src),
    ensures
        render_from(forest, src, from, seen).lines.len() == plain_lines(src, from) + plain_lines_of(
            forest,
            rendered_files(forest, src, from, seen),
        ),
    decreases unseen(forest, seen), src.lines.len() - from,
{
    if 0 <= from < src.lines.len() {
        match included_file(forest, src, from) {
            Some(file) => {
                if seen.contains(file.path) {
                    lemma_rendering_counts_plain_lines(forest, src, from + 1, seen);
                } else {
                    let target = forest.target(src.includes[from as usize])->0;
                    lemma_node_has_path(forest, target);
                    lemma_unseen_decreases(forest, seen, file.path);
                    let first = seen.insert(file.path);
                    lemma_rendering_counts_plain_lines(forest, file, 0, first);
                    let inner = render_from(forest, file, 0, first);
                    let after = first.union(inner.seen);
                    lemma_unseen_shrinks(forest, seen, after);
                    lemma_rendering_counts_plain_lines(forest, src, from + 1, after);
                    let head = seq![file.path];
                    let inside = rendered_files(forest, file, 0, first);
                    let rest = rendered_files(forest, src, from + 1, after);
                    lemma_plain_lines_of_concat(forest, head, inside);
                    lemma_plain_lines_of_concat(forest, head + inside, rest);
                    assert(plain_lines_of(forest, head.drop_last()) == 0);
                }
            },
            None => {
                lemma_rendering_counts_plain_lines(forest, src, from + 1, seen);
            },
        }
    }
}

/// The name written in an include directive is one of the names that the
/// file includes.
proof fn lemma_include_is_a_target(src: Source, i: int, n: int)
    requires
        0 <= i < n,
        i <= usize::MAX,
        src.includes.contains_key(i as usize),
    ensures
        src.targets_upto(n).contains(src.includes[i as usize]),
    decreases n,
{
    let before = src.targets_upto(n - 1);
    if i == n - 1 {
        assert(before.push(src.includes[i as usize]).last() == src.includes[i as usize]);
    } else {
        lemma_include_is_a_target(src, i, n - 1);
        let k = choose|k: int| 0 <= k < before.len() && before[k] == src.includes[i as usize];
        if src.includes.contains_key((n - 1) as usize) {
            assert(before.push(src.includes[(n - 1) as usize])[k] == src.includes[i as usize]);
        }
    }
}

/// In a tree that was built every include directive leads to a file of
/// the tree, so that the number of lines of its rendering is the number
/// of plain lines of the files that the rendering goes into.
pub proof fn lemma_built_tree_resolves_its_includes(
    table: Seq<EntryView>,
    root: Seq<char>,
    dirs: Seq<Seq<char>>,
    default_version: usize,
)
    requires
        build_forest(table, root, dirs, default_version) is Ok,
    ensures
        all_includes_resolve(build_forest(table, root, dirs, default_version)->Ok_0),
        build_forest(table, root, dirs, default_version)->Ok_0.file(root) is Some,
        includes_resolve(
            build_forest(table, root, dirs, default_version)->Ok_0,
            build_forest(table, root, dirs, default_version)->Ok_0.file(root)->0,
        ),
{
    let forest = build_forest(table, root, dirs, default_version)->Ok_0;
    lemma_built_tree_is_closed(table, root, dirs, default_version);
    assert forall|path: Seq<char>| #[trigger] forest.node(path) is Some implies includes_resolve(
        forest,
        forest.node(path)->0,
    ) by {
        let src = forest.node(path)->0;
        assert forall|i: int|
            0 <= i < src.lines.len() && i <= usize::MAX && src.includes.contains_key(
                i as usize,
            ) implies (#[trigger] included_file(forest, src, i)) is Some by {
            lemma_include_is_a_target(src, i, src.lines.len() as int);
        }
    }
}

} // verus!
