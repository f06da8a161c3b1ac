use glslwatch::error::{Error, IoFailure, Probe};

fn failure(detail: &str) -> IoFailure {
    IoFailure { detail: String::from(detail) }
}

#[test]
fn message_of_an_io_error() {
    let e = Error::Io(failure("permission denied"));
    assert_eq!(e.message(), "IO error of undecidede relevance: permission denied");
}

#[test]
fn message_of_a_failed_open() {
    let e = Error::FailedToOpen {
        path: String::from("noise.glsl"),
        searched_dirs: vec![String::from("shaders/include"), String::from("lib \"x\"")],
        cause: failure("not found"),
    };
    assert_eq!(
        e.message(),
        "Failed to open noise.glsl; searched in all of: [\"shaders/include\", \"lib \\\"x\\\"\"]; cause: not found"
    );
}

#[test]
fn message_of_a_cycle() {
    let e = Error::Cycle(vec![String::from("root"), String::from("a"), String::from("root")]);
    assert_eq!(e.message(), "Source tree has a cycle in branch: [\"root\", \"a\", \"root\"]");
    let e = Error::Cycle(Vec::new());
    assert_eq!(e.message(), "Source tree has a cycle in branch: []");
}

#[test]
fn message_of_a_version_mismatch() {
    let e = Error::VersionMismatch {
        root_version: 150,
        src_version: 140,
        src_path: String::from("old.glsl"),
    };
    assert_eq!(
        e.message(),
        "Version mismatch: root has version 150 (110 is the default version) but old.glsl has version 140"
    );
}

#[test]
fn message_of_a_missing_root() {
    assert_eq!(Error::MissingRoot.message(), "No or empty path given for root shader.");
}

#[test]
fn message_of_an_unread_probe() {
    let e = Error::Unread(Probe { dir: None, name: String::from("a.glsl") });
    assert_eq!(e.message(), "No reading of a.glsl");
    let e = Error::Unread(Probe { dir: Some(String::from("inc")), name: String::from("a.glsl") });
    assert_eq!(e.message(), "No reading of a.glsl in inc");
}

#[test]
fn cause_is_the_failure_of_the_file_system() {
    assert_eq!(Error::Io(failure("x")).cause(), Some(&failure("x")));
    let e = Error::FailedToOpen {
        path: String::from("p"),
        searched_dirs: Vec::new(),
        cause: failure("y"),
    };
    assert_eq!(e.cause(), Some(&failure("y")));
    assert_eq!(Error::MissingRoot.cause(), None);
    assert_eq!(Error::Cycle(Vec::new()).cause(), None);
    let e = Error::VersionMismatch { root_version: 1, src_version: 2, src_path: String::new() };
    assert_eq!(e.cause(), None);
    assert_eq!(Error::Unread(Probe { dir: None, name: String::new() }).cause(), None);
}

#[test]
fn copies_are_equal() {
    let f = failure("gone");
    assert_eq!(f.clone(), f);
    let p = Probe { dir: Some(String::from("d")), name: String::from("n") };
    assert_eq!(p.clone(), p);
}

#[test]
fn failure_becomes_an_io_error() {
    match Error::from(failure("disk full")) {
        Error::Io(cause) => assert_eq!(cause, failure("disk full")),
        _ => panic!("not an io error"),
    }
}
