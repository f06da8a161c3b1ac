//! One source file with what its directives say.
use crate::directive::{directive, parse_directive, Directive, DirectiveView};
use crate::error::{Error, ErrorView, IoFailure, ProbeView};
use crate::files::{reading_of, EntryView, FileTable, Reading, ReadingView};
use crate::text::{chars_of, string_from};
use std::collections::HashMap;
use vstd::prelude::*;

verus! {

broadcast use {vstd::string::group_string_axioms, vstd::std_specs::hash::group_hash_axioms};

/// A modification time, in nanoseconds from the Unix epoch; before the
/// epoch it is negative.
#[derive(Debug, Clone, Copy, PartialEq, Eq, Structural)]
pub struct ModTime {
    pub nanos: i128,
}

impl ModTime {
    /// Whether this time is later than `other`.
    pub open spec fn is_after(self, other: ModTime) -> bool {
        self.nanos > other.nanos
    }

    /// Tells whether this time is later than `other`.
    pub fn later_than(&self, other: &ModTime) -> (later: bool)
        ensures
            later == self.is_after(*other),
    {
        self.nanos > other.nanos
    }
}

/// One loaded file: its lines, and what its directives say.
#[derive(Debug, PartialEq)]
pub struct AnnotatedGLSL {
    /// The lines of the file, without their line ends.
    pub lines: Vec<String>,
    /// The line of the first version directive, and its number.
    pub version_pragma: Option<(usize, usize)>,
    /// For each line that holds an include directive, the path as written.
    pub includes: HashMap<usize, String>,
    /// The modification time when the file was read.
    pub mtime: ModTime,
    /// The path under which the file opened.
    pub path: String,
}

/// What an [`AnnotatedGLSL`] stands for.
pub struct Source {
    pub lines: Seq<Seq<char>>,
    pub version_pragma: Option<(usize, usize)>,
    pub includes: Map<usize, Seq<char>>,
    pub mtime: ModTime,
    pub path: Seq<char>,
}

impl View for AnnotatedGLSL {
    type V = Source;

    open spec fn view(&self) -> Source {
        Source {
            lines: self.lines.deep_view(),
            version_pragma: self.version_pragma,
            includes: self.includes@.map_values(|target: String| target@),
            mtime: self.mtime,
            path: self.path@,
        }
    }
}

impl Clone for AnnotatedGLSL {
    fn clone(&self) -> (copy: Self)
        ensures
            copy@ == self@,
    {
        AnnotatedGLSL {
            lines: crate::text::clone_slice(self.lines.as_slice()),
            version_pragma: self.version_pragma,
            includes: self.includes.clone(),
            mtime: self.mtime,
            path: self.path.clone(),
        }
    }
}

/// The lines of `text` from `start` on, where the characters up to `at` are
/// known to hold no line feed. A line ends with a line feed, or with a
/// carriage return and a line feed; neither belongs to the line. The last
/// line need not end so, and ends with the text.
pub open spec fn lines_from(text: Seq<char>, start: int, at: int) -> Seq<Seq<char>>
    decreases text.len() - at,
{
    if at < 0 || at >= text.len() {
        if start >= text.len() {
            Seq::empty()
        } else {
            seq![text.subrange(start, text.len() as int)]
        }
    } else if text[at] == '\n' {
        seq![without_return(text.subrange(start, at))] + lines_from(text, at + 1, at + 1)
    } else {
        lines_from(text, start, at + 1)
    }
}

/// `line` without the carriage return at its end, if it has one.
pub open spec fn without_return(line: Seq<char>) -> Seq<char> {
    if line.len() > 0 && line.last() == '\r' {
        line.drop_last()
    } else {
        line
    }
}

/// The lines of `text`.
pub open spec fn lines_of(text: Seq<char>) -> Seq<Seq<char>> {
    lines_from(text, 0, 0)
}

/// The number of the version directive in line `i`, if that line holds one.
pub open spec fn version_at(lines: Seq<Seq<char>>, i: int) -> Option<usize> {
    if 0 <= i < lines.len() {
        match parse_directive(lines[i]) {
            Some(DirectiveView::Version(v)) => Some(v),
            _ => None,
        }
    } else {
        None
    }
}

/// The path of the include directive in line `i`, if that line holds one.
pub open spec fn include_at(lines: Seq<Seq<char>>, i: int) -> Option<Seq<char>> {
    if 0 <= i < lines.len() {
        match parse_directive(lines[i]) {
            Some(DirectiveView::Include(path)) => Some(path),
            _ => None,
        }
    } else {
        None
    }
}

/// Whether line `i` holds the first version directive of `lines`.
pub open spec fn is_first_version(lines: Seq<Seq<char>>, i: int) -> bool {
    &&& version_at(lines, i) is Some
    &&& forall|j: int| 0 <= j < i ==> version_at(lines, j) is None
}

/// The first version directive of `lines`: its line and its number.
pub open spec fn first_version(lines: Seq<Seq<char>>) -> Option<(usize, usize)> {
    if exists|i: int| is_first_version(lines, i) {
        let i = choose|i: int| is_first_version(lines, i);
        Some((i as usize, version_at(lines, i)->0))
    } else {
        None
    }
}

/// The include directives of `lines`: for each line that holds one, its
/// path.
pub open spec fn include_lines(lines: Seq<Seq<char>>) -> Map<usize, Seq<char>> {
    Map::new(
        |i: usize| include_at(lines, i as int) is Some,
        |i: usize| include_at(lines, i as int)->0,
    )
}

/// The source that the file under `path` with these lines stands for.
pub open spec fn annotated(path: Seq<char>, lines: Seq<Seq<char>>, mtime: ModTime) -> Source {
    Source {
        lines,
        version_pragma: first_version(lines),
        includes: include_lines(lines),
        mtime,
        path,
    }
}

impl Source {
    /// Whether the annotations are those of the lines: the version pragma
    /// is the first version directive, and the includes are the include
    /// directives, each under its line.
    pub open spec fn well_annotated(self) -> bool {
        self == annotated(self.path, self.lines, self.mtime)
    }

    /// The paths written in the include directives of the first `n` lines,
    /// in the order of their lines.
    pub open spec fn targets_upto(self, n: int) -> Seq<Seq<char>>
        decreases n,
    {
        if n <= 0 {
            Seq::empty()
        } else if self.includes.contains_key((n - 1) as usize) {
            self.targets_upto(n - 1).push(self.includes[(n - 1) as usize])
        } else {
            self.targets_upto(n - 1)
        }
    }

    /// The paths written in the include directives of the file, in the
    /// order of their lines.
    pub open spec fn targets(self) -> Seq<Seq<char>> {
        self.targets_upto(self.lines.len() as int)
    }

    /// The line of the version pragma, if the file has one.
    pub open spec fn pragma_line(self) -> Option<usize> {
        match self.version_pragma {
            Some((line, _)) => Some(line),
            None => None,
        }
    }

    /// The version that the file declares, if it declares one.
    pub open spec fn declared(self) -> Option<usize> {
        match self.version_pragma {
            Some((_, version)) => Some(version),
            None => None,
        }
    }

    /// The version that the file declares, or `default` where it declares
    /// none.
    pub open spec fn version_or(self, default: usize) -> usize {
        match self.version_pragma {
            Some((_, version)) => version,
            None => default,
        }
    }
}

/// What a probe leads to.
pub enum Step {
    /// The file was found.
    Found(Source),
    /// The search ends with this error.
    Stop(ErrorView),
    /// Nothing opened here, for this cause: the search goes on.
    Next(Seq<char>),
}

/// What the probe for `name` in `dir` leads to.
pub open spec fn probe_step(table: Seq<EntryView>, probe: ProbeView) -> Step {
    match reading_of(table, probe) {
        None => Step::Stop(ErrorView::Unread(probe)),
        Some(ReadingView::Loaded { path, text, mtime }) => Step::Found(
            annotated(path, lines_of(text), mtime),
        ),
        Some(ReadingView::Unreadable(cause)) => Step::Stop(ErrorView::Io(cause)),
        Some(ReadingView::NotOpened(cause)) => Step::Next(cause),
    }
}

/// The search for `name` in the directories from the `k`th on, after the
/// places before have failed, the last of them for `cause`.
pub open spec fn search_from(
    table: Seq<EntryView>,
    name: Seq<char>,
    dirs: Seq<Seq<char>>,
    k: int,
    cause: Seq<char>,
) -> Result<Source, ErrorView>
    decreases dirs.len() - k,
{
    if k < 0 || k >= dirs.len() {
        if dirs.len() == 0 {
            Err(ErrorView::Io(cause))
        } else {
            Err(ErrorView::FailedToOpen { path: name, searched_dirs: dirs, cause })
        }
    } else {
        match probe_step(table, ProbeView { dir: Some(dirs[k]), name }) {
            Step::Found(source) => Ok(source),
            Step::Stop(error) => Err(error),
            Step::Next(next_cause) => search_from(table, name, dirs, k + 1, next_cause),
        }
    }
}

/// The load of `name`: the file that the name by itself leads to or, where
/// nothing opens there, the first that it leads to below one of `dirs`, in
/// their order.
pub open spec fn load_source(table: Seq<EntryView>, name: Seq<char>, dirs: Seq<Seq<char>>) -> Result<
    Source,
    ErrorView,
> {
    match probe_step(table, ProbeView { dir: None, name }) {
        Step::Found(source) => Ok(source),
        Step::Stop(error) => Err(error),
        Step::Next(cause) => search_from(table, name, dirs, 0, cause),
    }
}

/// Splits `text` into its lines.
pub fn split_lines(text: &str) -> (lines: Vec<String>)
    ensures
        lines.deep_view() == lines_of(text@),
{
    let chars = chars_of(text);
    let n: usize = chars.len();
    let mut lines: Vec<String> = Vec::new();
    let mut start: usize = 0;
    let mut at: usize = 0;
    while at < n
        invariant
            start <= at <= n,
            n == chars.len(),
            chars@ == text@,
            lines_of(text@) == lines.deep_view() + lines_from(text@, start as int, at as int),
        decreases n - at,
    {
        if chars[at] == '\n' {
            let end: usize = if at > start && chars[at - 1] == '\r' {
                at - 1
            } else {
                at
            };
            let line = string_from(&chars, start, end);
            proof {
                let whole = text@.subrange(start as int, at as int);
                assert(line@ == without_return(whole));
            }
            lines.push(line);
            start = at + 1;
        }
        at = at + 1;
    }
    if start < n {
        let line = string_from(&chars, start, n);
        lines.push(line);
    }
    lines
}

impl AnnotatedGLSL {
    /// Annotates the lines of a file: finds the first version directive and
    /// every include directive.
    pub fn annotate(path: String, lines: Vec<String>, mtime: ModTime) -> (src: AnnotatedGLSL)
        ensures
            src@ == annotated(path@, lines.deep_view(), mtime),
    {
        let ghost all = lines.deep_view();
        let mut version_pragma: Option<(usize, usize)> = None;
        let mut includes: HashMap<usize, String> = HashMap::new();
        let mut i: usize = 0;
        while i < lines.len()
            invariant
                i <= lines.len(),
                all == lines.deep_view(),
                match version_pragma {
                    Some((line, version)) => line < i && is_first_version(all, line as int)
                        && version_at(all, line as int) == Some(version),
                    None => forall|j: int| 0 <= j < i ==> version_at(all, j) is None,
                },
                forall|k: usize|
                    includes@.contains_key(k) <==> k < i && include_at(all, k as int) is Some,
                forall|k: usize|
                    includes@.contains_key(k) ==> (#[trigger] includes@[k])@ == include_at(
                        all,
                        k as int,
                    )->0,
            decreases lines.len() - i,
        {
            match directive(lines[i].as_str()) {
                Some(Directive::Version(version)) => {
                    if version_pragma.is_none() {
                        version_pragma = Some((i, version));
                    }
                },
                Some(Directive::Include(target)) => {
                    includes.insert(i, target);
                },
                None => {},
            }
            i = i + 1;
        }
        let src = AnnotatedGLSL { lines, version_pragma, includes, mtime, path };
        proof {
            assert(src@.includes =~= include_lines(all));
        }
        src
    }

    /// Loads the file that `path` names: looks it up by the path itself, and
    /// where nothing opens there, below each of `search_dirs` in turn, and
    /// annotates the first file found.
    ///
    /// Fails with `Unread` where the table is silent on a probe that the
    /// search comes to, with `Io` where a file opened but could not be read
    /// or, with no directories to search, did not open, and with
    /// `FailedToOpen` where none of the places searched opened.
    pub fn load(path: &str, search_dirs: &[String], files: &FileTable) -> (r: Result<
        AnnotatedGLSL,
        Error,
    >)
        ensures
            match r {
                Ok(src) => load_source(files@, path@, search_dirs.deep_view()) == Ok::<
                    Source,
                    ErrorView,
                >(src@),
                Err(e) => load_source(files@, path@, search_dirs.deep_view()) == Err::<
                    Source,
                    ErrorView,
                >(e@),
            },
    {
        let name = String::from_str(path);
        let ghost dirs = search_dirs.deep_view();
        let mut cause: IoFailure = match files.reading(None, &name) {
            None => {
                return Err(Error::Unread(crate::error::Probe { dir: None, name }));
            },
            Some(Reading::Loaded { path, text, mtime }) => {
                return Ok(AnnotatedGLSL::annotate(path.clone(), split_lines(text.as_str()), *mtime));
            },
            Some(Reading::Unreadable(cause)) => {
                return Err(Error::Io(cause.clone()));
            },
            Some(Reading::NotOpened(cause)) => cause.clone(),
        };
        let mut k: usize = 0;
        while k < search_dirs.len()
            invariant
                k <= search_dirs.len(),
                name@ == path@,
                dirs == search_dirs.deep_view(),
                load_source(files@, path@, dirs) == search_from(
                    files@,
                    path@,
                    dirs,
                    k as int,
                    cause@,
                ),
            decreases search_dirs.len() - k,
        {
            match files.reading(Some(&search_dirs[k]), &name) {
                None => {
                    return Err(
                        Error::Unread(
                            crate::error::Probe { dir: Some(search_dirs[k].clone()), name },
                        ),
                    );
                },
                Some(Reading::Loaded { path, text, mtime }) => {
                    return Ok(
                        AnnotatedGLSL::annotate(path.clone(), split_lines(text.as_str()), *mtime),
                    );
                },
                Some(Reading::Unreadable(cause)) => {
                    return Err(Error::Io(cause.clone()));
                },
                Some(Reading::NotOpened(next)) => {
                    cause = next.clone();
                },
            }
            k = k + 1;
        }
        if search_dirs.len() == 0 {
            Err(Error::Io(cause))
        } else {
            let searched_dirs = crate::text::clone_slice(search_dirs);
            Err(Error::FailedToOpen { path: name, searched_dirs, cause })
        }
    }

    /// The paths written in the include directives of the file, in the
    /// order of their lines.
    pub fn targets(&self) -> (targets: Vec<String>)
        ensures
            targets.deep_view() == self@.targets(),
    {
        let mut targets: Vec<String> = Vec::new();
        let mut i: usize = 0;
        while i < self.lines.len()
            invariant
                i <= self.lines.len(),
                targets.deep_view() == self@.targets_upto(i as int),
            decreases self.lines.len() - i,
        {
            match self.includes.get(&i) {
                Some(target) => {
                    targets.push(target.clone());
                },
                None => {},
            }
            i = i + 1;
        }
        targets
    }

    /// Whether the file is out of date, given what the file system now says
    /// of its modification time: whether that time is later than the one
    /// recorded when the file was read.
    pub fn expired(&self, current: &Result<ModTime, IoFailure>) -> (r: Result<bool, Error>)
        ensures
            match r {
                Ok(stale) => current matches Ok(now) && stale == now.is_after(self.mtime),
                Err(e) => current matches Err(cause) && e@ == ErrorView::Io(cause@),
            },
    {
        match current {
            Ok(now) => Ok(now.later_than(&self.mtime)),
            Err(cause) => Err(Error::Io(cause.clone())),
        }
    }
}

} // verus!
