//! What can go wrong while a source tree is built or checked.
use crate::text::{decimal, decimal_string};
use vstd::prelude::*;

verus! {

broadcast use vstd::string::group_string_axioms;

/// A failure of the file system, as the caller reports it.
#[derive(Debug, PartialEq, Eq)]
pub struct IoFailure {
    /// What the file system said.
    pub detail: String,
}

impl View for IoFailure {
    type V = Seq<char>;

    open spec fn view(&self) -> Seq<char> {
        self.detail@
    }
}

impl Clone for IoFailure {
    fn clone(&self) -> (copy: Self)
        ensures
            copy@ == self@,
    {
        IoFailure { detail: self.detail.clone() }
    }
}

/// One place in which a file is looked for: the name as it is written,
/// taken by itself or below a search directory.
#[derive(Debug, PartialEq, Eq)]
pub struct Probe {
    /// The search directory, or `None` for the name by itself.
    pub dir: Option<String>,
    /// The file's name as it is written.
    pub name: String,
}

/// What a [`Probe`] stands for.
pub struct ProbeView {
    pub dir: Option<Seq<char>>,
    pub name: Seq<char>,
}

impl View for Probe {
    type V = ProbeView;

    open spec fn view(&self) -> ProbeView {
        ProbeView {
            dir: match self.dir {
                Some(d) => Some(d@),
                None => None,
            },
            name: self.name@,
        }
    }
}

impl Clone for Probe {
    fn clone(&self) -> (copy: Self)
        ensures
            copy@ == self@,
    {
        let dir = match &self.dir {
            Some(d) => Some(d.clone()),
            None => None,
        };
        Probe { dir, name: self.name.clone() }
    }
}

/// An error loading or refreshing a GLSL source tree.
#[derive(Debug)]
pub enum Error {
    /// A file could not be read, or its modification time not be had.
    Io(IoFailure),
    /// An included file opened in none of the places searched.
    FailedToOpen { path: String, searched_dirs: Vec<String>, cause: IoFailure },
    /// A file includes itself, directly or through others. The branch runs
    /// from the root to the file that comes a second time.
    Cycle(Vec<String>),
    /// An included file declares another version than the tree has. The
    /// path is the name of the file as the include directive writes it.
    VersionMismatch { root_version: usize, src_version: usize, src_path: String },
    /// No root to build from.
    MissingRoot,
    /// The file table does not say what this probe gives: make the probe,
    /// record what it gave, and build again.
    Unread(Probe),
}

/// What an [`Error`] stands for.
pub enum ErrorView {
    Io(Seq<char>),
    FailedToOpen { path: Seq<char>, searched_dirs: Seq<Seq<char>>, cause: Seq<char> },
    Cycle(Seq<Seq<char>>),
    VersionMismatch { root_version: usize, src_version: usize, src_path: Seq<char> },
    MissingRoot,
    Unread(ProbeView),
}

impl View for Error {
    type V = ErrorView;

    open spec fn view(&self) -> ErrorView {
        match self {
            Error::Io(cause) => ErrorView::Io(cause@),
            Error::FailedToOpen { path, searched_dirs, cause } => ErrorView::FailedToOpen {
                path: path@,
                searched_dirs: searched_dirs.deep_view(),
                cause: cause@,
            },
            Error::Cycle(branch) => ErrorView::Cycle(branch.deep_view()),
            Error::VersionMismatch { root_version, src_version, src_path } => {
                ErrorView::VersionMismatch {
                    root_version: *root_version,
                    src_version: *src_version,
                    src_path: src_path@,
                }
            },
            Error::MissingRoot => ErrorView::MissingRoot,
            Error::Unread(probe) => ErrorView::Unread(probe@),
        }
    }
}

impl From<IoFailure> for Error {
    fn from(cause: IoFailure) -> (e: Error) {
        Error::Io(cause)
    }
}

impl vstd::std_specs::convert::FromSpecImpl<IoFailure> for Error {
    open spec fn obeys_from_spec() -> bool {
        true
    }

    open spec fn from_spec(cause: IoFailure) -> Error {
        Error::Io(cause)
    }
}

/// The text that `{:?}` gives for a list of strings.
pub uninterp spec fn debug_listing(items: Seq<Seq<char>>) -> Seq<char>;

/// Formats a list of strings with `{:?}`, as `std::fmt::Debug` does for a
/// `Vec<String>`. The text depends on the strings alone; what it is, in
/// particular how characters are escaped, is left to the standard library.
#[verifier::external_body]
fn list_text(items: &Vec<String>) -> (s: String)
    ensures
        s@ == debug_listing(items.deep_view()),
{
    format!("{:?}", items)
}

/// What [`Error::message`] says of `e`.
pub open spec fn message_text(e: ErrorView) -> Seq<char> {
    match e {
        ErrorView::Io(cause) => "IO error of undecidede relevance: "@ + cause,
        ErrorView::FailedToOpen { path, searched_dirs, cause } => "Failed to open "@ + path
            + "; searched in all of: "@ + debug_listing(searched_dirs) + "; cause: "@ + cause,
        ErrorView::Cycle(branch) => "Source tree has a cycle in branch: "@ + debug_listing(branch),
        ErrorView::VersionMismatch { root_version, src_version, src_path } =>
            "Version mismatch: root has version "@ + decimal(root_version as nat)
                + " (110 is the default version) but "@ + src_path + " has version "@ + decimal(
                src_version as nat,
            ),
        ErrorView::MissingRoot => "No or empty path given for root shader."@,
        ErrorView::Unread(probe) => match probe.dir {
            Some(dir) => "No reading of "@ + probe.name + " in "@ + dir,
            None => "No reading of "@ + probe.name,
        },
    }
}

impl Error {
    /// Says in words what went wrong.
    pub fn message(&self) -> (s: String)
        ensures
            s@ == message_text(self@),
    {
        match self {
            Error::Io(cause) => {
                let mut s = String::from_str("IO error of undecidede relevance: ");
                s.append(cause.detail.as_str());
                s
            },
            Error::FailedToOpen { path, searched_dirs, cause } => {
                let listing = list_text(searched_dirs);
                let mut s = String::from_str("Failed to open ");
                s.append(path.as_str());
                s.append("; searched in all of: ");
                s.append(listing.as_str());
                s.append("; cause: ");
                s.append(cause.detail.as_str());
                s
            },
            Error::Cycle(branch) => {
                let listing = list_text(branch);
                let mut s = String::from_str("Source tree has a cycle in branch: ");
                s.append(listing.as_str());
                s
            },
            Error::VersionMismatch { root_version, src_version, src_path } => {
                let root = decimal_string(*root_version);
                let src = decimal_string(*src_version);
                let mut s = String::from_str("Version mismatch: root has version ");
                s.append(root.as_str());
                s.append(" (110 is the default version) but ");
                s.append(src_path.as_str());
                s.append(" has version ");
                s.append(src.as_str());
                s
            },
            Error::MissingRoot => String::from_str("No or empty path given for root shader."),
            Error::Unread(probe) => {
                let mut s = String::from_str("No reading of ");
                s.append(probe.name.as_str());
                match &probe.dir {
                    Some(dir) => {
                        s.append(" in ");
                        s.append(dir.as_str());
                    },
                    None => {},
                }
                s
            },
        }
    }

    /// The failure of the file system behind this error, if there is one.
    pub fn cause(&self) -> (cause: Option<&IoFailure>)
        ensures
            match self {
                Error::Io(c) => cause == Some(c),
                Error::FailedToOpen { cause: c, .. } => cause == Some(c),
                _ => cause is None,
            },
    {
        match self {
            Error::Io(c) => Some(c),
            Error::FailedToOpen { cause: c, .. } => Some(c),
            _ => None,
        }
    }
}

} // verus!
