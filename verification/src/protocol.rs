//! The vocabulary shared by the pruner and whoever drives it: the requests
//! the pruner makes of the filesystem, the answers it takes back, and the
//! errors a run can end with.
use vstd::prelude::*;

verus! {

/// One operation on the filesystem.
#[derive(Clone, Copy, Debug, PartialEq, Eq, Structural)]
pub enum Request {
    /// Does the directory given to the run exist?
    RootExists,
    /// Does the directory hold the marker as a direct child?
    HasMarker,
    /// List the immediate entries of the directory.
    List,
    /// Read the time of the file's last modification.
    Modified,
    /// Delete the file.
    RemoveFile,
    /// Delete the directory, which must be empty.
    RemoveDir,
}

/// An immediate child of a directory, as a listing reports it.
#[derive(Debug, PartialEq, Eq)]
pub struct Entry {
    pub name: String,
    pub is_dir: bool,
}

pub struct EntryView {
    pub name: Seq<char>,
    pub is_dir: bool,
}

impl View for Entry {
    type V = EntryView;

    open spec fn view(&self) -> EntryView {
        EntryView { name: self.name@, is_dir: self.is_dir }
    }
}

impl Clone for Entry {
    fn clone(&self) -> (r: Self)
        ensures
            r == *self,
    {
        Entry { name: self.name.clone(), is_dir: self.is_dir }
    }
}

/// The entries of a listing, as mathematical values.
pub open spec fn entries_view(entries: Seq<Entry>) -> Seq<EntryView> {
    entries.map_values(|e: Entry| e@)
}

/// Why a run ended without completing.
#[derive(Debug, PartialEq, Eq)]
pub enum PruneError {
    /// The directory given to the run does not exist.
    MissingRoot { dir: String },
    /// The filesystem could not carry out `request` on `path`.
    Io { request: Request, path: Vec<String>, reason: String },
    /// The file at `path` was last modified after the reference time.
    ClockSkew { path: Vec<String> },
    /// An answer did not fit the pending request, or came after the end.
    Protocol,
}

pub enum PruneErrorView {
    MissingRoot { dir: Seq<char> },
    Io { request: Request, path: Seq<Seq<char>>, reason: Seq<char> },
    ClockSkew { path: Seq<Seq<char>> },
    Protocol,
}

impl View for PruneError {
    type V = PruneErrorView;

    open spec fn view(&self) -> PruneErrorView {
        match *self {
            PruneError::MissingRoot { dir } => PruneErrorView::MissingRoot { dir: dir@ },
            PruneError::Io { request, path, reason } => PruneErrorView::Io {
                request,
                path: path.deep_view(),
                reason: reason@,
            },
            PruneError::ClockSkew { path } => PruneErrorView::ClockSkew { path: path.deep_view() },
            PruneError::Protocol => PruneErrorView::Protocol,
        }
    }
}

/// What the pruner wants done next. A path is the sequence of its
/// components, the first being the directory given to the run.
#[derive(Debug, PartialEq, Eq)]
pub enum Action {
    /// Carry out `request` on `path` and report the answer.
    Perform { request: Request, path: Vec<String> },
    /// The run is over.
    Finish { outcome: Result<(), PruneError> },
}

pub enum ActionView {
    Perform { request: Request, path: Seq<Seq<char>> },
    Finish { outcome: Result<(), PruneErrorView> },
}

impl View for Action {
    type V = ActionView;

    open spec fn view(&self) -> ActionView {
        match *self {
            Action::Perform { request, path } => ActionView::Perform {
                request,
                path: path.deep_view(),
            },
            Action::Finish { outcome } => ActionView::Finish {
                outcome: match outcome {
                    Ok(_) => Ok(()),
                    Err(e) => Err(e@),
                },
            },
        }
    }
}

/// The filesystem's answer to a request.
#[derive(Debug, PartialEq, Eq)]
pub enum Event {
    /// Answers `RootExists` and `HasMarker`.
    Found(bool),
    /// Answers `List`.
    Listing(Vec<Entry>),
    /// Answers `Modified`: nanoseconds relative to the Unix epoch.
    ModifiedAt(i128),
    /// Answers `RemoveFile` and `RemoveDir`.
    Removed,
    /// The request could not be carried out.
    Failed(String),
}

pub enum EventView {
    Found(bool),
    Listing(Seq<EntryView>),
    ModifiedAt(int),
    Removed,
    Failed(Seq<char>),
}

impl View for Event {
    type V = EventView;

    open spec fn view(&self) -> EventView {
        match *self {
            Event::Found(b) => EventView::Found(b),
            Event::Listing(entries) => EventView::Listing(entries_view(entries@)),
            Event::ModifiedAt(t) => EventView::ModifiedAt(t as int),
            Event::Removed => EventView::Removed,
            Event::Failed(reason) => EventView::Failed(reason@),
        }
    }
}

} // verus!
