//! The pruner: a state machine that walks a directory tree depth first,
//! asks for stale files and emptied directories to be deleted, and leaves
//! marked directories alone. It never touches the filesystem itself: it
//! hands out one request at a time and takes the answer back.
use crate::clock::{is_stale, stale};
use crate::protocol::{
    entries_view, Action, ActionView, Entry, EntryView, Event, EventView, PruneError,
    PruneErrorView, Request,
};
use vstd::prelude::*;

verus! {

/// A directory whose processing has begun and not ended.
pub struct FrameView {
    /// The directory's name within its parent; for the outermost frame, the
    /// directory given to the run.
    pub name: Seq<char>,
    /// The entries not yet dealt with. The last one is the current entry.
    pub todo: Seq<EntryView>,
    /// Whether every entry dealt with so far has been removed.
    pub all_removed: bool,
}

/// What a run was asked to do.
pub struct Task {
    /// The directory to prune.
    pub root: Seq<char>,
    /// The age threshold in nanoseconds.
    pub age: int,
    /// The reference time, in nanoseconds relative to the Unix epoch.
    pub now: int,
}

/// The pruner's state as a mathematical value.
pub struct StateView {
    pub task: Task,
    /// The directories being processed, outermost first.
    pub frames: Seq<FrameView>,
    /// The request whose answer is awaited; `None` once the run is over.
    pub pending: Option<Request>,
}

/// A state together with the action that the pruner handed out on reaching
/// it.
pub struct Step {
    pub state: StateView,
    pub action: ActionView,
}

/// The path of the innermost directory in `frames`.
pub open spec fn names(frames: Seq<FrameView>) -> Seq<Seq<char>> {
    frames.map_values(|f: FrameView| f.name)
}

/// The frame of a directory that has just been entered.
pub open spec fn fresh(name: Seq<char>) -> FrameView {
    FrameView { name, todo: Seq::empty(), all_removed: true }
}

/// The innermost directory's current entry has been dealt with; `removed`
/// tells whether it is gone.
pub open spec fn advance(frames: Seq<FrameView>, removed: bool) -> Seq<FrameView> {
    if frames.len() > 0 && frames.last().todo.len() > 0 {
        let top = frames.last();
        frames.update(
            frames.len() - 1,
            FrameView {
                name: top.name,
                todo: top.todo.drop_last(),
                all_removed: top.all_removed && removed,
            },
        )
    } else {
        frames
    }
}

/// The innermost directory has been dealt with as a whole; `removed` tells
/// whether it is gone.
pub open spec fn leave(frames: Seq<FrameView>, removed: bool) -> Seq<FrameView> {
    if frames.len() > 0 {
        advance(frames.drop_last(), removed)
    } else {
        frames
    }
}

/// The innermost directory's listing has arrived.
pub open spec fn listed(frames: Seq<FrameView>, entries: Seq<EntryView>) -> Seq<FrameView> {
    if frames.len() > 0 {
        let top = frames.last();
        frames.update(
            frames.len() - 1,
            FrameView { name: top.name, todo: entries, all_removed: top.all_removed },
        )
    } else {
        frames
    }
}

/// The path that `request` is about when the directories in `frames` are
/// being processed.
pub open spec fn target(task: Task, frames: Seq<FrameView>, request: Request) -> Seq<Seq<char>> {
    match request {
        Request::RootExists => seq![task.root],
        Request::Modified | Request::RemoveFile => {
            if frames.len() > 0 && frames.last().todo.len() > 0 {
                names(frames).push(frames.last().todo.last().name)
            } else {
                names(frames)
            }
        },
        _ => names(frames),
    }
}

/// The run ends with `outcome`.
pub open spec fn finish(
    task: Task,
    frames: Seq<FrameView>,
    outcome: Result<(), PruneErrorView>,
) -> Step {
    Step {
        state: StateView { task, frames, pending: None },
        action: ActionView::Finish { outcome },
    }
}

/// The run goes on with `request`.
pub open spec fn ask(task: Task, frames: Seq<FrameView>, request: Request) -> Step {
    Step {
        state: StateView { task, frames, pending: Some(request) },
        action: ActionView::Perform { request, path: target(task, frames, request) },
    }
}

/// Picks the next request once the innermost directory's current entry has
/// changed. A subdirectory is entered and a file is looked at. A directory
/// with nothing left to do is deleted if all its entries went and it is not
/// the outermost; otherwise it is left, and its parent no longer counts as
/// emptied. With no directory left the run is complete.
pub open spec fn settle(task: Task, frames: Seq<FrameView>) -> Step
    decreases frames.len(),
{
    if frames.len() == 0 {
        finish(task, frames, Ok(()))
    } else {
        let top = frames.last();
        if top.todo.len() > 0 {
            let entry = top.todo.last();
            if entry.is_dir {
                ask(task, frames.push(fresh(entry.name)), Request::HasMarker)
            } else {
                ask(task, frames, Request::Modified)
            }
        } else if frames.len() > 1 && top.all_removed {
            ask(task, frames, Request::RemoveDir)
        } else {
            settle(task, leave(frames, false))
        }
    }
}

impl StateView {
    /// The start of a run: nothing has been entered, and the first question
    /// is whether the directory exists.
    pub open spec fn initial(task: Task) -> Step {
        ask(task, Seq::empty(), Request::RootExists)
    }

    /// The state and action that follow when `event` answers the pending
    /// request.
    pub open spec fn next(self, event: EventView) -> Step {
        let task = self.task;
        let frames = self.frames;
        match self.pending {
            None => finish(task, frames, Err(PruneErrorView::Protocol)),
            Some(request) => match (request, event) {
                (_, EventView::Failed(reason)) => finish(
                    task,
                    frames,
                    Err(
                        PruneErrorView::Io {
                            request,
                            path: target(task, frames, request),
                            reason,
                        },
                    ),
                ),
                (Request::RootExists, EventView::Found(exists)) => {
                    if exists {
                        ask(task, seq![fresh(task.root)], Request::HasMarker)
                    } else {
                        finish(task, frames, Err(PruneErrorView::MissingRoot { dir: task.root }))
                    }
                },
                (Request::HasMarker, EventView::Found(marked)) => {
                    if marked {
                        settle(task, leave(frames, false))
                    } else {
                        ask(task, frames, Request::List)
                    }
                },
                (Request::List, EventView::Listing(entries)) => settle(
                    task,
                    listed(frames, entries),
                ),
                (Request::Modified, EventView::ModifiedAt(modified)) => {
                    if modified > task.now {
                        finish(
                            task,
                            frames,
                            Err(
                                PruneErrorView::ClockSkew {
                                    path: target(task, frames, request),
                                },
                            ),
                        )
                    } else if stale(task.now, modified, task.age) {
                        ask(task, frames, Request::RemoveFile)
                    } else {
                        settle(task, advance(frames, false))
                    }
                },
                (Request::RemoveFile, EventView::Removed) => settle(task, advance(frames, true)),
                (Request::RemoveDir, EventView::Removed) => settle(task, leave(frames, true)),
                _ => finish(task, frames, Err(PruneErrorView::Protocol)),
            },
        }
    }
}

/// What the choice of the next request can come to: the end of a complete
/// run, a look into a subdirectory or at a file, or the deletion of a
/// directory that is not the outermost.
pub proof fn settle_asks(task: Task, frames: Seq<FrameView>)
    ensures
        match settle(task, frames).action {
            ActionView::Finish { outcome } => outcome is Ok,
            ActionView::Perform { request, path } => {
                &&& request == Request::HasMarker || request == Request::Modified || request
                    == Request::RemoveDir
                &&& request == Request::RemoveDir ==> path.len() >= 2
            },
        },
    decreases frames.len(),
{
    if frames.len() > 0 {
        let top = frames.last();
        if top.todo.len() > 0 {
        } else if frames.len() > 1 && top.all_removed {
        } else {
            settle_asks(task, leave(frames, false));
        }
    }
}

/// The directory given to a run is never asked to be deleted: whatever the
/// state and the answer, a directory to delete lies below another.
pub proof fn root_is_never_removed(state: StateView, event: EventView)
    ensures
        state.next(event).action matches ActionView::Perform { request: Request::RemoveDir, path }
            ==> path.len() >= 2,
{
    let task = state.task;
    let frames = state.frames;
    settle_asks(task, leave(frames, false));
    settle_asks(task, leave(frames, true));
    settle_asks(task, advance(frames, false));
    settle_asks(task, advance(frames, true));
    if event is Listing {
        settle_asks(task, listed(frames, event->Listing_0));
    }
}

/// A file is asked to be deleted only in answer to the time of its last
/// modification, only if that time makes it stale, and it is the file whose
/// time was asked for.
pub proof fn only_stale_files_are_removed(state: StateView, event: EventView)
    ensures
        state.next(event).action matches ActionView::Perform {
            request: Request::RemoveFile,
            path,
        } ==> {
            &&& state.pending == Some(Request::Modified)
            &&& event matches EventView::ModifiedAt(modified)
            &&& stale(state.task.now, modified, state.task.age)
            &&& path == target(state.task, state.frames, Request::Modified)
        },
{
    let task = state.task;
    let frames = state.frames;
    settle_asks(task, leave(frames, false));
    settle_asks(task, leave(frames, true));
    settle_asks(task, advance(frames, false));
    settle_asks(task, advance(frames, true));
    if event is Listing {
        settle_asks(task, listed(frames, event->Listing_0));
    }
}

/// A request that fails ends the run with the error of that request, and a
/// run that is over asks for nothing more, whatever it is told.
pub proof fn failure_ends_the_run(state: StateView, reason: Seq<char>, later: EventView)
    ensures
        state.pending matches Some(request) ==> state.next(EventView::Failed(reason)) == finish(
            state.task,
            state.frames,
            Err(
                PruneErrorView::Io {
                    request,
                    path: target(state.task, state.frames, request),
                    reason,
                },
            ),
        ),
        state.next(EventView::Failed(reason)).state.pending is None,
        state.next(EventView::Failed(reason)).state.next(later).action is Finish,
        state.next(EventView::Failed(reason)).state.next(later).state.pending is None,
{
}

struct Frame {
    name: String,
    todo: Vec<Entry>,
    all_removed: bool,
}

impl View for Frame {
    type V = FrameView;

    closed spec fn view(&self) -> FrameView {
        FrameView {
            name: self.name@,
            todo: entries_view(self.todo@),
            all_removed: self.all_removed,
        }
    }
}

spec fn frames_view(frames: Seq<Frame>) -> Seq<FrameView> {
    frames.map_values(|f: Frame| f@)
}

/// A run in progress.
pub struct Pruner {
    root: String,
    age: u128,
    now: i128,
    frames: Vec<Frame>,
    pending: Option<Request>,
}

impl View for Pruner {
    type V = StateView;

    closed spec fn view(&self) -> StateView {
        StateView {
            task: Task { root: self.root@, age: self.age as int, now: self.now as int },
            frames: frames_view(self.frames@),
            pending: self.pending,
        }
    }
}

/// Begins a run on the directory `dir`: every file under it that was last
/// modified more than `age` nanoseconds before `now` is to be deleted, and
/// every directory under it that is emptied thereby, except inside
/// directories that hold the marker. `now` counts nanoseconds from the Unix
/// epoch. Returns the run and its first request.
pub fn cleanup_stale_data(dir: &str, age: u128, now: i128) -> (r: (Pruner, Action))
    ensures
        (Step { state: r.0@, action: r.1@ }) == StateView::initial(
            Task { root: dir@, age: age as int, now: now as int },
        ),
{
    let root = dir.to_owned();
    let mut path: Vec<String> = Vec::new();
    path.push(root.clone());
    let pruner = Pruner {
        root,
        age,
        now,
        frames: Vec::new(),
        pending: Some(Request::RootExists),
    };
    proof {
        assert(frames_view(pruner.frames@) =~= Seq::empty());
        assert(path.deep_view() =~= seq![dir@]);
    }
    (pruner, Action::Perform { request: Request::RootExists, path })
}

fn path_of(frames: &Vec<Frame>) -> (path: Vec<String>)
    ensures
        path.deep_view() == names(frames_view(frames@)),
{
    let mut path: Vec<String> = Vec::new();
    let mut i: usize = 0;
    while i < frames.len()
        invariant
            i <= frames.len(),
            path.deep_view() == names(frames_view(frames@)).take(i as int),
        decreases frames.len() - i,
    {
        let ghost before = path.deep_view();
        path.push(frames[i].name.clone());
        i = i + 1;
        proof {
            assert(path.deep_view() =~= before.push(frames@[i - 1].name@));
            assert(before.push(frames@[i - 1].name@) =~= names(frames_view(frames@)).take(
                i as int,
            ));
        }
    }
    proof {
        assert(names(frames_view(frames@)).take(i as int) =~= names(frames_view(frames@)));
    }
    path
}

fn advance_frames(frames: &mut Vec<Frame>, removed: bool)
    ensures
        frames_view(final(frames)@) == advance(frames_view(old(frames)@), removed),
{
    match frames.pop() {
        None => {},
        Some(top) => {
            let Frame { name, mut todo, all_removed } = top;
            let ghost before = todo@;
            if todo.len() > 0 {
                todo.pop();
                frames.push(Frame { name, todo, all_removed: all_removed && removed });
                proof {
                    assert(entries_view(todo@) =~= entries_view(before).drop_last());
                    assert(frames_view(frames@) =~= advance(frames_view(old(frames)@), removed));
                }
            } else {
                frames.push(Frame { name, todo, all_removed });
                proof {
                    assert(frames_view(frames@) =~= frames_view(old(frames)@));
                }
            }
        },
    }
}

fn leave_frames(frames: &mut Vec<Frame>, removed: bool)
    ensures
        frames_view(final(frames)@) == leave(frames_view(old(frames)@), removed),
{
    match frames.pop() {
        None => {},
        Some(_) => {
            proof {
                assert(frames_view(frames@) =~= frames_view(old(frames)@).drop_last());
            }
            advance_frames(frames, removed);
        },
    }
}

impl Pruner {
    /// Whether the run is over.
    pub fn is_finished(&self) -> (r: bool)
        ensures
            r == (self@.pending is None),
    {
        self.pending.is_none()
    }

    fn target_path(&self, request: Request) -> (path: Vec<String>)
        ensures
            path.deep_view() == target(self@.task, self@.frames, request),
    {
        match request {
            Request::RootExists => {
                let mut path: Vec<String> = Vec::new();
                path.push(self.root.clone());
                proof {
                    assert(path.deep_view() =~= seq![self.root@]);
                }
                path
            },
            Request::Modified | Request::RemoveFile => {
                let mut path = path_of(&self.frames);
                let n = self.frames.len();
                if n > 0 && self.frames[n - 1].todo.len() > 0 {
                    let top = &self.frames[n - 1];
                    path.push(top.todo[top.todo.len() - 1].name.clone());
                    proof {
                        assert(path.deep_view() =~= target(self@.task, self@.frames, request));
                    }
                }
                path
            },
            _ => path_of(&self.frames),
        }
    }

    fn finish(self, outcome: Result<(), PruneError>) -> (r: (Pruner, Action))
        ensures
            (Step { state: r.0@, action: r.1@ }) == finish(
                self@.task,
                self@.frames,
                match outcome {
                    Ok(_) => Ok(()),
                    Err(e) => Err(e@),
                },
            ),
    {
        let Pruner { root, age, now, frames, pending: _ } = self;
        (Pruner { root, age, now, frames, pending: None }, Action::Finish { outcome })
    }

    fn ask(self, request: Request) -> (r: (Pruner, Action))
        ensures
            (Step { state: r.0@, action: r.1@ }) == ask(self@.task, self@.frames, request),
    {
        let Pruner { root, age, now, frames, pending: _ } = self;
        let pruner = Pruner { root, age, now, frames, pending: Some(request) };
        let path = pruner.target_path(request);
        (pruner, Action::Perform { request, path })
    }

    fn settle(self) -> (r: (Pruner, Action))
        ensures
            (Step { state: r.0@, action: r.1@ }) == settle(self@.task, self@.frames),
    {
        let Pruner { root, age, now, mut frames, pending } = self;
        loop
            invariant
                root == self.root,
                age == self.age,
                now == self.now,
                settle(self@.task, frames_view(frames@)) == settle(self@.task, self@.frames),
            decreases frames.len(),
        {
            let n = frames.len();
            if n == 0 {
                return (Pruner { root, age, now, frames, pending: None }).finish(Ok(()));
            }
            if frames[n - 1].todo.len() > 0 {
                let top = &frames[n - 1];
                if top.todo[top.todo.len() - 1].is_dir {
                    let name = top.todo[top.todo.len() - 1].name.clone();
                    let ghost outer = frames_view(frames@);
                    frames.push(Frame { name, todo: Vec::new(), all_removed: true });
                    proof {
                        assert(entries_view(Seq::<Entry>::empty()) =~= Seq::empty());
                        assert(frames_view(frames@) =~= outer.push(
                            fresh(outer.last().todo.last().name),
                        ));
                    }
                    return (Pruner { root, age, now, frames, pending }).ask(Request::HasMarker);
                } else {
                    return (Pruner { root, age, now, frames, pending }).ask(Request::Modified);
                }
            } else if n > 1 && frames[n - 1].all_removed {
                return (Pruner { root, age, now, frames, pending }).ask(Request::RemoveDir);
            } else {
                leave_frames(&mut frames, false);
            }
        }
    }

    /// Takes the answer to the pending request and decides what comes next.
    pub fn step(self, event: Event) -> (r: (Pruner, Action))
        ensures
            (Step { state: r.0@, action: r.1@ }) == self@.next(event@),
    {
        let request = match self.pending {
            None => {
                return self.finish(Err(PruneError::Protocol));
            },
            Some(request) => request,
        };
        match event {
            Event::Failed(reason) => {
                let path = self.target_path(request);
                self.finish(Err(PruneError::Io { request, path, reason }))
            },
            Event::Found(found) => match request {
                Request::RootExists => {
                    if found {
                        let Pruner { root, age, now, frames: _, pending } = self;
                        let mut frames: Vec<Frame> = Vec::new();
                        frames.push(
                            Frame { name: root.clone(), todo: Vec::new(), all_removed: true },
                        );
                        proof {
                            assert(entries_view(Seq::<Entry>::empty()) =~= Seq::empty());
                            assert(frames_view(frames@) =~= seq![fresh(root@)]);
                        }
                        (Pruner { root, age, now, frames, pending }).ask(Request::HasMarker)
                    } else {
                        let dir = self.root.clone();
                        self.finish(Err(PruneError::MissingRoot { dir }))
                    }
                },
                Request::HasMarker => {
                    if found {
                        let Pruner { root, age, now, mut frames, pending } = self;
                        leave_frames(&mut frames, false);
                        (Pruner { root, age, now, frames, pending }).settle()
                    } else {
                        self.ask(Request::List)
                    }
                },
                _ => self.finish(Err(PruneError::Protocol)),
            },
            Event::Listing(entries) => match request {
                Request::List => {
                    let Pruner { root, age, now, mut frames, pending } = self;
                    match frames.pop() {
                        None => {},
                        Some(top) => {
                            let Frame { name, todo: _, all_removed } = top;
                            frames.push(Frame { name, todo: entries, all_removed });
                            proof {
                                assert(frames_view(frames@) =~= listed(
                                    self@.frames,
                                    entries_view(entries@),
                                ));
                            }
                        },
                    }
                    (Pruner { root, age, now, frames, pending }).settle()
                },
                _ => self.finish(Err(PruneError::Protocol)),
            },
            Event::ModifiedAt(modified) => match request {
                Request::Modified => {
                    if modified > self.now {
                        let path = self.target_path(request);
                        self.finish(Err(PruneError::ClockSkew { path }))
                    } else if is_stale(self.now, modified, self.age) {
                        self.ask(Request::RemoveFile)
                    } else {
                        let Pruner { root, age, now, mut frames, pending } = self;
                        advance_frames(&mut frames, false);
                        (Pruner { root, age, now, frames, pending }).settle()
                    }
                },
                _ => self.finish(Err(PruneError::Protocol)),
            },
            Event::Removed => match request {
                Request::RemoveFile => {
                    let Pruner { root, age, now, mut frames, pending } = self;
                    advance_frames(&mut frames, true);
                    (Pruner { root, age, now, frames, pending }).settle()
                },
                Request::RemoveDir => {
                    let Pruner { root, age, now, mut frames, pending } = self;
                    leave_frames(&mut frames, true);
                    (Pruner { root, age, now, frames, pending }).settle()
                },
                _ => self.finish(Err(PruneError::Protocol)),
            },
        }
    }
}

} // verus!
