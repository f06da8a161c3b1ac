use glslwatch::branch::Branch;
use glslwatch::error::{Error, IoFailure, Probe};
use glslwatch::files::{FileTable, Reading};
use glslwatch::preprocess::{AnnotatedGLSL, ModTime};
use glslwatch::tree::GLSLTree;
use std::collections::HashMap;

/// A file system in memory: path, text, modification time.
struct Disk {
    files: Vec<(String, String, i128)>,
}

impl Disk {
    fn new() -> Disk {
        Disk { files: Vec::new() }
    }

    fn put(&mut self, path: &str, text: &str, nanos: i128) {
        self.files.retain(|f| f.0 != path);
        self.files.push((String::from(path), String::from(text), nanos));
    }

    fn remove(&mut self, path: &str) {
        self.files.retain(|f| f.0 != path);
    }

    fn join(dir: &Option<String>, name: &str) -> String {
        match dir {
            Some(d) => format!("{}/{}", d, name),
            None => String::from(name),
        }
    }

    fn read(&self, probe: &Probe) -> Reading {
        let path = Disk::join(&probe.dir, &probe.name);
        match self.files.iter().find(|f| f.0 == path) {
            Some(f) => Reading::Loaded { path, text: f.1.clone(), mtime: ModTime { nanos: f.2 } },
            None => Reading::NotOpened(IoFailure { detail: format!("{} not found", path) }),
        }
    }

    fn stat(&self, path: &str) -> Result<ModTime, IoFailure> {
        match self.files.iter().find(|f| f.0 == path) {
            Some(f) => Ok(ModTime { nanos: f.2 }),
            None => Err(IoFailure { detail: format!("{} not found", path) }),
        }
    }

    /// Makes the probes that a build asks for until it asks for no more.
    fn build(&self, path: &str, dirs: &[String], version: usize) -> (Result<GLSLTree, Error>, FileTable) {
        let mut files = FileTable::new();
        loop {
            match GLSLTree::with_default_version(path, dirs, version, &files) {
                Err(Error::Unread(probe)) => {
                    let reading = self.read(&probe);
                    files.record(probe, reading);
                }
                other => return (other, files),
            }
        }
    }

    fn tree(&self, path: &str, dirs: &[String]) -> Result<GLSLTree, Error> {
        self.build(path, dirs, 110).0
    }

    /// Makes the probes that a new build from the root needs, then
    /// refreshes the tree from them.
    fn refresh(&self, tree: GLSLTree) -> Result<GLSLTree, Error> {
        let root = String::from(tree.root_path());
        let search: Vec<String> = tree.include_dirs().clone();
        let files = self.build(&root, &search, 110).1;
        tree.refresh(&files)
    }

    fn expired(&self, tree: &GLSLTree) -> Result<bool, Error> {
        let current: Vec<Result<ModTime, IoFailure>> =
            tree.paths().iter().map(|p| self.stat(p)).collect();
        tree.expired(&current)
    }
}

fn dirs(names: &[&str]) -> Vec<String> {
    names.iter().map(|s| String::from(*s)).collect()
}

fn fixture() -> Disk {
    let mut disk = Disk::new();
    disk.put(
        "src/test_glsl/simple.vert",
        "#version 150\n#include \"common.vert\"\n\nvoid main() {\n    gl_Position = transform(position);\n}\n",
        10,
    );
    disk.put(
        "src/test_glsl/common.vert",
        "uniform mat4 mvp;\nvec4 transform(vec3 p) {\n    return mvp * vec4(p, 1.0);\n}\n",
        10,
    );
    disk
}

fn table_of(disk: &Disk, path: &str, search: &[String]) -> FileTable {
    disk.build(path, search, 110).1
}

#[test]
fn it_works() {
    let disk = fixture();
    let files = table_of(&disk, "src/test_glsl/simple.vert", &dirs(&["src/test_glsl"]));
    let tree = GLSLTree::new("src/test_glsl/simple.vert", &dirs(&["src/test_glsl"]), &files)
        .expect("my tree");
    println!("render: {}", tree.render());
    assert_eq!(
        tree.render(),
        "#version 150\nuniform mat4 mvp;\nvec4 transform(vec3 p) {\n    return mvp * vec4(p, 1.0);\n}\n\nvoid main() {\n    gl_Position = transform(position);\n}"
    );
}

#[test]
fn hello() {
    let disk = fixture();
    let files = table_of(&disk, "src/test_glsl/simple.vert", &dirs(&["src/test_glsl"]));
    let result = AnnotatedGLSL::load(
        "src/test_glsl/simple.vert",
        &[String::from("src/test_glsl")],
        &files,
    )
    .expect("annotated glsl");
    assert_eq!(result.version_pragma, Some((0, 150)));
    let mut expected: HashMap<usize, String> = HashMap::new();
    expected.insert(1, String::from("common.vert"));
    assert_eq!(result.includes, expected);

    let expiry = result
        .expired(&disk.stat("src/test_glsl/simple.vert"))
        .expect("expiry");
    assert_eq!(expiry, false);
}

#[test]
fn load_keeps_path_lines_and_time() {
    let disk = fixture();
    let search = dirs(&["src/test_glsl"]);
    let files = table_of(&disk, "src/test_glsl/simple.vert", &search);
    let found = AnnotatedGLSL::load("common.vert", &search, &files).expect("found below the directory");
    assert_eq!(found.path, "src/test_glsl/common.vert");
    assert_eq!(found.mtime, ModTime { nanos: 10 });
    assert_eq!(found.lines.len(), 4);
    assert_eq!(found.lines[0], "uniform mat4 mvp;");
    assert_eq!(found.version_pragma, None);
    assert!(found.includes.is_empty());
}

#[test]
fn round_trip_without_directives() {
    let mut disk = Disk::new();
    disk.put("plain.frag", "void main() {\n    discard;\n}\n", 1);
    let tree = disk.tree("plain.frag", &[]).expect("tree");
    assert_eq!(tree.render(), "#version 110\nvoid main() {\n    discard;\n}");
    let (tree, _) = disk.build("plain.frag", &[], 330);
    assert_eq!(tree.expect("tree").render(), "#version 330\nvoid main() {\n    discard;\n}");
}

#[test]
fn empty_root_renders_only_the_version() {
    let mut disk = Disk::new();
    disk.put("empty.frag", "", 1);
    let tree = disk.tree("empty.frag", &[]).expect("tree");
    assert_eq!(tree.render(), "#version 110\n");
}

#[test]
fn diamond_renders_the_shared_file_once() {
    let mut disk = Disk::new();
    disk.put("root.glsl", "r0\n#include \"a.glsl\"\nr1\n#include \"b.glsl\"\nr2", 1);
    disk.put("inc/a.glsl", "a0\n#include \"c.glsl\"\na1", 1);
    disk.put("inc/b.glsl", "b0\n#include <c.glsl>\nb1", 1);
    disk.put("inc/c.glsl", "c0\nc1", 1);
    let tree = disk.tree("root.glsl", &dirs(&["inc"])).expect("tree");
    assert_eq!(tree.render(), "#version 110\nr0\na0\nc0\nc1\na1\nr1\nb0\nb1\nr2");
    assert_eq!(tree.render().matches("c0").count(), 1);
    assert_eq!(
        tree.paths(),
        vec!["root.glsl", "inc/a.glsl", "inc/c.glsl", "inc/b.glsl"]
    );
}

#[test]
fn same_file_under_two_names_is_one_file() {
    let mut disk = Disk::new();
    disk.put("root.glsl", "#include \"inc/c.glsl\"\n#include \"c.glsl\"\nend", 1);
    disk.put("inc/c.glsl", "shared", 1);
    let tree = disk.tree("root.glsl", &dirs(&["inc"])).expect("tree");
    assert_eq!(tree.render(), "#version 110\nshared\nend");
    assert_eq!(tree.paths(), vec!["root.glsl", "inc/c.glsl"]);
}

#[test]
fn cycle_through_one_file_is_refused() {
    let mut disk = Disk::new();
    disk.put("root.glsl", "#include \"a.glsl\"", 1);
    disk.put("a.glsl", "#include \"root.glsl\"", 1);
    match disk.tree("root.glsl", &[]) {
        Err(Error::Cycle(branch)) => assert_eq!(branch, vec!["root.glsl", "a.glsl", "root.glsl"]),
        other => panic!("no cycle found: {:?}", other.map(|t| String::from(t.render()))),
    }
}

#[test]
fn cycle_of_a_file_with_itself_is_refused() {
    let mut disk = Disk::new();
    disk.put("root.glsl", "#include \"root.glsl\"", 1);
    match disk.tree("root.glsl", &[]) {
        Err(Error::Cycle(branch)) => assert_eq!(branch, vec!["root.glsl", "root.glsl"]),
        other => panic!("no cycle found: {:?}", other.map(|t| String::from(t.render()))),
    }
}

#[test]
fn cycle_below_the_root_lists_the_branch_from_the_root() {
    let mut disk = Disk::new();
    disk.put("root.glsl", "#include \"a.glsl\"", 1);
    disk.put("lib/a.glsl", "#include \"b.glsl\"", 1);
    disk.put("lib/b.glsl", "#include \"a.glsl\"", 1);
    match disk.tree("root.glsl", &dirs(&["lib"])) {
        Err(Error::Cycle(branch)) => {
            assert_eq!(branch, vec!["root.glsl", "lib/a.glsl", "lib/b.glsl", "lib/a.glsl"])
        }
        other => panic!("no cycle found: {:?}", other.map(|t| String::from(t.render()))),
    }
}

#[test]
fn version_mismatch_is_refused() {
    let mut disk = Disk::new();
    disk.put("root.glsl", "#version 150\n#include \"old.glsl\"", 1);
    disk.put("lib/old.glsl", "#version 140\nfloat x;", 1);
    match disk.tree("root.glsl", &dirs(&["lib"])) {
        Err(Error::VersionMismatch { root_version, src_version, src_path }) => {
            assert_eq!(root_version, 150);
            assert_eq!(src_version, 140);
            assert_eq!(src_path, "old.glsl");
        }
        other => panic!("no mismatch found: {:?}", other.map(|t| String::from(t.render()))),
    }
}

#[test]
fn same_version_or_none_is_accepted() {
    let mut disk = Disk::new();
    disk.put("root.glsl", "#version 150\n#include \"same.glsl\"\n#include \"none.glsl\"", 1);
    disk.put("same.glsl", "#version 150\nfloat x;", 1);
    disk.put("none.glsl", "float y;", 1);
    let tree = disk.tree("root.glsl", &[]).expect("tree");
    assert_eq!(tree.render(), "#version 150\nfloat x;\nfloat y;");
}

#[test]
fn included_version_is_held_to_the_default_of_the_root() {
    let mut disk = Disk::new();
    disk.put("root.glsl", "#include \"v.glsl\"", 1);
    disk.put("v.glsl", "#version 330\nfloat x;", 1);
    match disk.build("root.glsl", &[], 110).0 {
        Err(Error::VersionMismatch { root_version, src_version, .. }) => {
            assert_eq!((root_version, src_version), (110, 330));
        }
        other => panic!("no mismatch found: {:?}", other.map(|t| String::from(t.render()))),
    }
    let tree = disk.build("root.glsl", &[], 330).0.expect("tree");
    assert_eq!(tree.render(), "#version 330\nfloat x;");
}

#[test]
fn version_pragmas_are_not_rendered() {
    let mut disk = Disk::new();
    disk.put("root.glsl", "// head\n  #version 450\n#include \"a.glsl\"\nmain", 1);
    disk.put("a.glsl", "#version 450\na", 1);
    let tree = disk.tree("root.glsl", &[]).expect("tree");
    assert_eq!(tree.render(), "#version 450\n// head\na\nmain");
    assert_eq!(tree.render().matches("#version").count(), 1);
    assert!(tree.render().starts_with("#version 450\n"));
}

#[test]
fn only_the_first_version_pragma_is_dropped() {
    let mut disk = Disk::new();
    disk.put("root.glsl", "#version 150\n#version 150\nmain", 1);
    let tree = disk.tree("root.glsl", &[]).expect("tree");
    assert_eq!(tree.render(), "#version 150\n#version 150\nmain");
}

#[test]
fn missing_root_is_refused() {
    let files = FileTable::new();
    assert!(matches!(GLSLTree::new("", &[], &files), Err(Error::MissingRoot)));
}

#[test]
fn unread_root_is_asked_for() {
    let files = FileTable::new();
    match GLSLTree::new("root.glsl", &dirs(&["inc"]), &files) {
        Err(Error::Unread(probe)) => {
            assert_eq!(probe, Probe { dir: None, name: String::from("root.glsl") })
        }
        _ => panic!("the root was not asked for"),
    }
}

#[test]
fn probes_go_through_the_directories_in_order() {
    let mut disk = Disk::new();
    disk.put("root.glsl", "#include \"x.glsl\"", 1);
    disk.put("second/x.glsl", "second", 1);
    disk.put("third/x.glsl", "third", 1);
    let search = dirs(&["first", "second", "third"]);
    let (tree, files) = disk.build("root.glsl", &search, 110);
    assert_eq!(tree.expect("tree").render(), "#version 110\nsecond");
    // root; x.glsl by itself, in first, in second: the third is never tried
    assert_eq!(files.len(), 4);
}

#[test]
fn direct_path_comes_before_the_directories() {
    let mut disk = Disk::new();
    disk.put("root.glsl", "#include \"x.glsl\"", 1);
    disk.put("x.glsl", "direct", 1);
    disk.put("inc/x.glsl", "searched", 1);
    let tree = disk.tree("root.glsl", &dirs(&["inc"])).expect("tree");
    assert_eq!(tree.render(), "#version 110\ndirect");
}

#[test]
fn root_is_not_searched_in_the_directories() {
    let mut disk = Disk::new();
    disk.put("inc/root.glsl", "hidden", 1);
    match disk.tree("root.glsl", &dirs(&["inc"])) {
        Err(Error::Io(cause)) => assert_eq!(cause.detail, "root.glsl not found"),
        _ => panic!("the root was searched"),
    }
}

#[test]
fn missing_include_names_the_directories_searched() {
    let mut disk = Disk::new();
    disk.put("root.glsl", "#include \"gone.glsl\"", 1);
    match disk.tree("root.glsl", &dirs(&["a", "b"])) {
        Err(Error::FailedToOpen { path, searched_dirs, cause }) => {
            assert_eq!(path, "gone.glsl");
            assert_eq!(searched_dirs, vec!["a", "b"]);
            assert_eq!(cause.detail, "b/gone.glsl not found");
        }
        _ => panic!("the include was found"),
    }
}

#[test]
fn missing_include_without_directories_is_an_io_error() {
    let mut disk = Disk::new();
    disk.put("root.glsl", "#include \"gone.glsl\"", 1);
    match disk.tree("root.glsl", &[]) {
        Err(Error::Io(cause)) => assert_eq!(cause.detail, "gone.glsl not found"),
        _ => panic!("the include was found"),
    }
}

#[test]
fn unreadable_file_ends_the_search() {
    let mut files = FileTable::new();
    files.record(
        Probe { dir: None, name: String::from("root.glsl") },
        Reading::Loaded {
            path: String::from("root.glsl"),
            text: String::from("#include \"bin.glsl\""),
            mtime: ModTime { nanos: 0 },
        },
    );
    files.record(
        Probe { dir: None, name: String::from("bin.glsl") },
        Reading::Unreadable(IoFailure { detail: String::from("not text") }),
    );
    match GLSLTree::new("root.glsl", &dirs(&["inc"]), &files) {
        Err(Error::Io(cause)) => assert_eq!(cause.detail, "not text"),
        _ => panic!("the search went on"),
    }
}

#[test]
fn later_reading_replaces_earlier() {
    let mut files = FileTable::new();
    let probe = Probe { dir: None, name: String::from("root.glsl") };
    files.record(probe.clone(), Reading::NotOpened(IoFailure { detail: String::from("gone") }));
    assert!(matches!(GLSLTree::new("root.glsl", &[], &files), Err(Error::Io(_))));
    files.record(
        probe,
        Reading::Loaded {
            path: String::from("root.glsl"),
            text: String::from("back"),
            mtime: ModTime { nanos: 0 },
        },
    );
    assert_eq!(GLSLTree::new("root.glsl", &[], &files).expect("tree").render(), "#version 110\nback");
    assert!(matches!(
        files.reading(None, &String::from("root.glsl")),
        Some(Reading::Loaded { .. })
    ));
    assert!(files.reading(Some(&String::from("inc")), &String::from("root.glsl")).is_none());
}

#[test]
fn unresolved_include_line_is_kept_as_text() {
    // a node handed to the renderer with a map that lacks the included file
    let disk = fixture();
    let search = dirs(&["src/test_glsl"]);
    let files = table_of(&disk, "src/test_glsl/simple.vert", &search);
    let src = AnnotatedGLSL::load("src/test_glsl/simple.vert", &search, &files).expect("source");
    let map = glslwatch::forest::SourceMap::new();
    let mut seen: Vec<String> = Vec::new();
    let lines = GLSLTree::render_node(&src, &map, &mut seen);
    assert_eq!(lines[0], "#include \"common.vert\"");
    assert_eq!(lines.len(), 5);
    assert!(seen.is_empty());
}

#[test]
fn render_node_skips_seen_files() {
    let mut disk = Disk::new();
    disk.put("root.glsl", "#include \"a.glsl\"\nmain", 1);
    disk.put("a.glsl", "a", 1);
    let files = table_of(&disk, "root.glsl", &[]);
    let map = GLSLTree::build_node(
        &String::from("root.glsl"),
        &[],
        &Branch::new(),
        None,
        110,
        glslwatch::forest::SourceMap::new(),
        &files,
    )
    .expect("map");
    assert_eq!(map.len(), 2);
    let root = map.file(&String::from("root.glsl")).expect("root");
    let mut seen = vec![String::from("a.glsl")];
    assert_eq!(GLSLTree::render_node(root, &map, &mut seen), vec!["main"]);
    let mut seen: Vec<String> = Vec::new();
    assert_eq!(GLSLTree::render_node(root, &map, &mut seen), vec!["a", "main"]);
    assert_eq!(seen, vec!["a.glsl"]);
}

#[test]
fn fresh_tree_is_not_expired() {
    let disk = fixture();
    let tree = disk.tree("src/test_glsl/simple.vert", &dirs(&["src/test_glsl"])).expect("tree");
    assert_eq!(disk.expired(&tree).expect("expiry"), false);
}

#[test]
fn touched_file_expires_the_tree_until_refreshed() {
    let mut disk = fixture();
    let tree = disk.tree("src/test_glsl/simple.vert", &dirs(&["src/test_glsl"])).expect("tree");
    disk.put("src/test_glsl/common.vert", "uniform mat4 mvp;\n// touched\n", 11);
    assert_eq!(disk.expired(&tree).expect("expiry"), true);
    let tree = disk.refresh(tree).expect("refreshed");
    assert_eq!(disk.expired(&tree).expect("expiry"), false);
    assert_eq!(
        tree.render(),
        "#version 150\nuniform mat4 mvp;\n// touched\n\nvoid main() {\n    gl_Position = transform(position);\n}"
    );
}

#[test]
fn older_time_does_not_expire() {
    let mut disk = fixture();
    let tree = disk.tree("src/test_glsl/simple.vert", &dirs(&["src/test_glsl"])).expect("tree");
    disk.put("src/test_glsl/common.vert", "uniform mat4 mvp;\n", 9);
    assert_eq!(disk.expired(&tree).expect("expiry"), false);
}

#[test]
fn deleted_file_is_an_error_of_expired() {
    let mut disk = fixture();
    let tree = disk.tree("src/test_glsl/simple.vert", &dirs(&["src/test_glsl"])).expect("tree");
    disk.put("src/test_glsl/simple.vert", "later", 99);
    disk.remove("src/test_glsl/common.vert");
    match disk.expired(&tree) {
        Err(Error::Io(cause)) => assert_eq!(cause.detail, "src/test_glsl/common.vert not found"),
        _ => panic!("the deleted file went unnoticed"),
    }
}

#[test]
fn expired_asks_for_a_missing_report() {
    let disk = fixture();
    let tree = disk.tree("src/test_glsl/simple.vert", &dirs(&["src/test_glsl"])).expect("tree");
    let current = vec![Ok(ModTime { nanos: 50 })];
    match tree.expired(&current) {
        Err(Error::Unread(probe)) => assert_eq!(
            probe,
            Probe { dir: None, name: String::from("src/test_glsl/common.vert") }
        ),
        _ => panic!("the missing report went unnoticed"),
    }
}

#[test]
fn source_expires_only_by_a_later_time() {
    let disk = fixture();
    let search = dirs(&["src/test_glsl"]);
    let files = table_of(&disk, "src/test_glsl/simple.vert", &search);
    let src = AnnotatedGLSL::load("common.vert", &search, &files).expect("source");
    assert_eq!(src.expired(&Ok(ModTime { nanos: 10 })).expect("expiry"), false);
    assert_eq!(src.expired(&Ok(ModTime { nanos: 11 })).expect("expiry"), true);
    assert_eq!(src.expired(&Ok(ModTime { nanos: -3 })).expect("expiry"), false);
    assert!(matches!(
        src.expired(&Err(IoFailure { detail: String::from("gone") })),
        Err(Error::Io(_))
    ));
}

#[test]
fn removed_include_leaves_the_refreshed_tree() {
    let mut disk = Disk::new();
    disk.put("root.glsl", "#include \"a.glsl\"\n#include \"b.glsl\"\nmain", 1);
    disk.put("a.glsl", "#include \"c.glsl\"\na", 1);
    disk.put("b.glsl", "b", 1);
    disk.put("c.glsl", "c", 1);
    let tree = disk.tree("root.glsl", &[]).expect("tree");
    assert_eq!(tree.paths(), vec!["root.glsl", "a.glsl", "c.glsl", "b.glsl"]);
    disk.put("root.glsl", "#include \"b.glsl\"\nmain", 2);
    let tree = disk.refresh(tree).expect("refreshed");
    assert_eq!(tree.paths(), vec!["root.glsl", "b.glsl"]);
    assert_eq!(tree.render(), "#version 110\nb\nmain");
}

#[test]
fn removed_include_stays_while_reachable_otherwise() {
    let mut disk = Disk::new();
    disk.put("root.glsl", "#include \"a.glsl\"\n#include \"c.glsl\"", 1);
    disk.put("a.glsl", "#include \"c.glsl\"\na", 1);
    disk.put("c.glsl", "c", 1);
    let tree = disk.tree("root.glsl", &[]).expect("tree");
    disk.put("a.glsl", "a", 2);
    let tree = disk.refresh(tree).expect("refreshed");
    assert_eq!(tree.paths(), vec!["root.glsl", "a.glsl", "c.glsl"]);
    assert_eq!(tree.render(), "#version 110\na\nc");
}

#[test]
fn refresh_uses_the_common_default_version() {
    let mut disk = Disk::new();
    disk.put("root.glsl", "main", 1);
    let tree = disk.build("root.glsl", &[], 450).0.expect("tree");
    assert_eq!(tree.render(), "#version 450\nmain");
    let tree = disk.refresh(tree).expect("refreshed");
    assert_eq!(tree.render(), "#version 110\nmain");
}

#[test]
fn copy_of_a_tree_is_the_same_tree() {
    let disk = fixture();
    let tree = disk.tree("src/test_glsl/simple.vert", &dirs(&["src/test_glsl"])).expect("tree");
    let copy = tree.clone();
    assert_eq!(copy.render(), tree.render());
    assert_eq!(copy.paths(), tree.paths());
    assert_eq!(copy.root_path(), "src/test_glsl/simple.vert");
    assert_eq!(copy.include_dirs(), &dirs(&["src/test_glsl"]));
    assert_eq!(disk.expired(&copy).expect("expiry"), false);
}

#[test]
fn copy_of_a_source_is_equal() {
    let disk = fixture();
    let search = dirs(&["src/test_glsl"]);
    let files = table_of(&disk, "src/test_glsl/simple.vert", &search);
    let src = AnnotatedGLSL::load("src/test_glsl/simple.vert", &search, &files).expect("source");
    assert_eq!(src.clone(), src);
}

#[test]
fn branch_lists_its_files_from_the_root() {
    let root = Branch::new();
    assert!(root.at_root());
    assert_eq!(root.paths(), Vec::<String>::new());
    assert!(!root.holds(&String::from("a")));
    let a = root.below(String::from("a"));
    let b = a.below(String::from("b"));
    let c = a.below(String::from("c"));
    assert!(!a.at_root());
    assert_eq!(a.paths(), vec!["a"]);
    assert_eq!(b.paths(), vec!["a", "b"]);
    assert_eq!(c.paths(), vec!["a", "c"]);
    assert!(b.holds(&String::from("a")));
    assert!(b.holds(&String::from("b")));
    assert!(!b.holds(&String::from("c")));
    assert!(!a.holds(&String::from("b")));
    // the branch above stays as it was
    assert!(root.at_root());
    assert_eq!(root.paths(), Vec::<String>::new());
}

#[test]
fn build_node_below_a_branch_searches_and_checks() {
    let mut disk = Disk::new();
    disk.put("lib/a.glsl", "#version 150\n#include \"b.glsl\"", 1);
    disk.put("lib/b.glsl", "b", 1);
    let search = dirs(&["lib"]);
    let branch = Branch::new().below(String::from("root.glsl"));
    let build = |files: &FileTable, version: Option<usize>| {
        GLSLTree::build_node(
            &String::from("a.glsl"),
            &search,
            &branch,
            version,
            110,
            glslwatch::forest::SourceMap::new(),
            files,
        )
    };
    let mut files = FileTable::new();
    let map = loop {
        match build(&files, Some(150)) {
            Err(Error::Unread(probe)) => {
                let reading = disk.read(&probe);
                files.record(probe, reading);
            }
            other => break other.expect("map"),
        }
    };
    assert_eq!(map.len(), 2);
    assert_eq!(map.nth(0).path, "lib/a.glsl");
    assert_eq!(map.nth(1).path, "lib/b.glsl");
    assert_eq!(map.target(&String::from("a.glsl")), Some(&String::from("lib/a.glsl")));
    assert!(map.get(&String::from("lib/b.glsl")).is_some());
    assert!(map.get(&String::from("b.glsl")).is_none());
    assert!(matches!(build(&files, Some(140)), Err(Error::VersionMismatch { .. })));
    let on_it = Branch::new().below(String::from("lib/a.glsl"));
    match GLSLTree::build_node(
        &String::from("a.glsl"),
        &search,
        &on_it,
        None,
        110,
        glslwatch::forest::SourceMap::new(),
        &files,
    ) {
        Err(Error::Cycle(list)) => assert_eq!(list, vec!["lib/a.glsl", "lib/a.glsl"]),
        _ => panic!("no cycle found"),
    }
}

#[test]
fn rendering_has_the_plain_lines_of_each_file_once() {
    let mut disk = Disk::new();
    disk.put("root.glsl", "#version 150\nr0\n#include \"a.glsl\"\nr1\n#include \"b.glsl\"\nr2", 1);
    disk.put("inc/a.glsl", "a0\n#include \"c.glsl\"\na1", 1);
    disk.put("inc/b.glsl", "#version 150\nb0\n#include <c.glsl>\nb1", 1);
    disk.put("inc/c.glsl", "c0\nc1", 1);
    let tree = disk.tree("root.glsl", &dirs(&["inc"])).expect("tree");
    // the header, then 3 plain lines of the root and 2 of each other file
    assert_eq!(tree.render().lines().count(), 1 + 3 + 2 + 2 + 2);
}

#[test]
fn refresh_after_a_touch_succeeds_and_is_current() {
    let mut disk = fixture();
    let tree = disk.tree("src/test_glsl/simple.vert", &dirs(&["src/test_glsl"])).expect("tree");
    let text = String::from(tree.render());
    let touched: Vec<(String, String, i128)> =
        disk.files.iter().map(|f| (f.0.clone(), f.1.clone(), f.2 + 5)).collect();
    for f in touched.iter() {
        disk.put(&f.0, &f.1, f.2);
    }
    assert_eq!(disk.expired(&tree).expect("expiry"), true);
    let tree = disk.refresh(tree).expect("refreshed");
    assert_eq!(disk.expired(&tree).expect("expiry"), false);
    assert_eq!(tree.render(), text);
}
