//! What is known of the file system: a table of the probes made so far and
//! of what each of them gave.
//!
//! The library never touches the file system. Whoever uses it makes each
//! probe, records what it gave, and hands the table in. Where the table is
//! silent on a probe that a build needs, the build stops and names it.
use crate::error::{IoFailure, Probe, ProbeView};
use crate::preprocess::ModTime;
use vstd::prelude::*;

verus! {

/// What a probe gave.
#[derive(Debug)]
pub enum Reading {
    /// The file opened and was read: the path that opened, the file's text
    /// and its modification time.
    Loaded { path: String, text: String, mtime: ModTime },
    /// No file opened in this place.
    NotOpened(IoFailure),
    /// A file opened, but its text or its modification time could not be had.
    Unreadable(IoFailure),
}

/// What a [`Reading`] stands for.
pub enum ReadingView {
    Loaded { path: Seq<char>, text: Seq<char>, mtime: ModTime },
    NotOpened(Seq<char>),
    Unreadable(Seq<char>),
}

impl View for Reading {
    type V = ReadingView;

    open spec fn view(&self) -> ReadingView {
        match self {
            Reading::Loaded { path, text, mtime } => ReadingView::Loaded {
                path: path@,
                text: text@,
                mtime: *mtime,
            },
            Reading::NotOpened(cause) => ReadingView::NotOpened(cause@),
            Reading::Unreadable(cause) => ReadingView::Unreadable(cause@),
        }
    }
}

/// A probe with what it gave.
#[derive(Debug)]
pub struct Entry {
    pub probe: Probe,
    pub reading: Reading,
}

/// What an [`Entry`] stands for.
pub struct EntryView {
    pub probe: ProbeView,
    pub reading: ReadingView,
}

impl View for Entry {
    type V = EntryView;

    open spec fn view(&self) -> EntryView {
        EntryView { probe: self.probe@, reading: self.reading@ }
    }
}

/// What the table says of `probe`: the reading recorded for it last.
pub open spec fn reading_of(table: Seq<EntryView>, probe: ProbeView) -> Option<ReadingView>
    decreases table.len(),
{
    if table.len() == 0 {
        None
    } else if table.last().probe == probe {
        Some(table.last().reading)
    } else {
        reading_of(table.drop_last(), probe)
    }
}

/// The path under which an entry's file opened; the empty path where none
/// did.
pub open spec fn opened_path(entry: EntryView) -> Seq<char> {
    match entry.reading {
        ReadingView::Loaded { path, .. } => path,
        _ => Seq::empty(),
    }
}

/// The paths under which the files of the table opened.
pub open spec fn opened_paths(table: Seq<EntryView>) -> Set<Seq<char>> {
    table.map_values(|entry: EntryView| opened_path(entry)).to_set()
}

/// A reading that the table holds is one of its entries.
pub proof fn lemma_reading_is_entry(table: Seq<EntryView>, probe: ProbeView)
    requires
        reading_of(table, probe) is Some,
    ensures
        exists|i: int|
            0 <= i < table.len() && table[i] == (EntryView {
                probe,
                reading: reading_of(table, probe)->0,
            }),
    decreases table.len(),
{
    if table.last().probe != probe {
        lemma_reading_is_entry(table.drop_last(), probe);
    }
}

/// The path of a file that the table holds is one of its opened paths.
pub proof fn lemma_loaded_path_is_opened(table: Seq<EntryView>, probe: ProbeView)
    requires
        reading_of(table, probe) is Some,
        reading_of(table, probe)->0 is Loaded,
    ensures
        opened_paths(table).contains(reading_of(table, probe)->0->path),
{
    lemma_reading_is_entry(table, probe);
    let entry = EntryView { probe, reading: reading_of(table, probe)->0 };
    let i = choose|i: int| 0 <= i < table.len() && table[i] == entry;
    let paths = table.map_values(|entry: EntryView| opened_path(entry));
    assert(paths[i] == opened_path(entry));
}

/// The record of the probes made and of what they gave.
#[derive(Debug)]
pub struct FileTable {
    entries: Vec<Entry>,
}

impl View for FileTable {
    type V = Seq<EntryView>;

    closed spec fn view(&self) -> Seq<EntryView> {
        self.entries@.map_values(|entry: Entry| entry@)
    }
}

impl FileTable {
    /// A table that knows of no probe.
    pub fn new() -> (table: FileTable)
        ensures
            table@ == Seq::<EntryView>::empty(),
    {
        let table = FileTable { entries: Vec::new() };
        table
    }

    /// Records what `probe` gave. A later reading of the same probe takes
    /// the place of an earlier one.
    pub fn record(&mut self, probe: Probe, reading: Reading)
        ensures
            final(self)@ == old(self)@.push(EntryView { probe: probe@, reading: reading@ }),
            reading_of(final(self)@, probe@) == Some(reading@),
            forall|other: ProbeView|
                other != probe@ ==> reading_of(final(self)@, other) == reading_of(
                    old(self)@,
                    other,
                ),
    {
        let ghost before = self@;
        self.entries.push(Entry { probe, reading });
        assert(self@.drop_last() =~= before);
    }

    /// The number of readings recorded.
    pub fn len(&self) -> (n: usize)
        ensures
            n == self@.len(),
    {
        self.entries.len()
    }

    /// What the table says of the probe for `name` in `dir`.
    pub fn reading(&self, dir: Option<&String>, name: &String) -> (found: Option<&Reading>)
        ensures
            match found {
                Some(reading) => reading_of(self@, probe_view(dir, name)) == Some(reading@),
                None => reading_of(self@, probe_view(dir, name)) is None,
            },
    {
        let ghost probe = probe_view(dir, name);
        let mut i: usize = self.entries.len();
        assert(self@.take(i as int) =~= self@);
        while i > 0
            invariant
                i <= self.entries.len(),
                probe == probe_view(dir, name),
                reading_of(self@, probe) == reading_of(self@.take(i as int), probe),
            decreases i,
        {
            let entry = &self.entries[i - 1];
            let ghost prefix = self@.take(i as int);
            assert(prefix.drop_last() =~= self@.take(i - 1));
            if entry.probe.name == *name && same_dir(entry.probe.dir.as_ref(), dir) {
                return Some(&entry.reading);
            }
            i = i - 1;
        }
        None
    }
}

/// The probe for `name` in `dir`.
pub open spec fn probe_view(dir: Option<&String>, name: &String) -> ProbeView {
    ProbeView {
        dir: match dir {
            Some(d) => Some(d@),
            None => None,
        },
        name: name@,
    }
}

/// Whether two optional directories are the same.
fn same_dir(a: Option<&String>, b: Option<&String>) -> (same: bool)
    ensures
        same == (match (a, b) {
            (Some(x), Some(y)) => x@ == y@,
            (None, None) => true,
            _ => false,
        }),
{
    match (a, b) {
        (Some(x), Some(y)) => *x == *y,
        (None, None) => true,
        _ => false,
    }
}

} // verus!
