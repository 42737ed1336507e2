//! What holds at every moment of a run of the pruner against a filesystem
//! that answers truly: how the pruner's frames describe the tree on the
//! filesystem.
use crate::filesystem::{effect, Moment};
use crate::protocol::{ActionView, EntryView, EventView, Request};
use crate::pruner::{ask, fresh, names, FrameView, Step, Task};
use crate::tree::Node;
use vstd::prelude::*;

verus! {

/// Whether `name` is among the entries still to be dealt with.
pub open spec fn on_list(todo: Seq<EntryView>, name: Seq<char>) -> bool {
    exists|i: int| 0 <= i < todo.len() && (#[trigger] todo[i]).name == name
}

/// Whether `todo` names entries of `dir`, each at most once, and tells
/// files from directories.
pub open spec fn part_of(todo: Seq<EntryView>, dir: Node) -> bool {
    &&& forall|i: int|
        0 <= i < todo.len() ==> {
            &&& dir->entries.dom().contains((#[trigger] todo[i]).name)
            &&& todo[i].is_dir == (dir->entries[todo[i].name] is Dir)
        }
    &&& forall|i: int, j: int|
        0 <= i < j < todo.len() ==> (#[trigger] todo[i]).name != (#[trigger] todo[j]).name
}

/// Whether pruning deletes every entry of `dir` that is dealt with.
pub open spec fn cleared(dir: Node, todo: Seq<EntryView>, task: Task) -> bool {
    forall|name: Seq<char>| #[trigger]
        dir->entries.dom().contains(name) && !on_list(todo, name) ==> dir->entries[name].survivor(
            task.age,
            task.now,
        ) is None
}

/// The directory `dir` in the middle of its processing: the entries still
/// to be dealt with are as they were, the others as pruning leaves them.
pub open spec fn partly(dir: Node, todo: Seq<EntryView>, task: Task) -> Node {
    Node::Dir {
        entries: Map::new(
            |name: Seq<char>|
                dir->entries.dom().contains(name) && (on_list(todo, name)
                    || dir->entries[name].survivor(task.age, task.now) is Some),
            |name: Seq<char>|
                if on_list(todo, name) {
                    dir->entries[name]
                } else {
                    dir->entries[name].survivor(task.age, task.now).unwrap()
                },
        ),
    }
}

/// The node that the innermost directory of `frames` was in `root` when the
/// run began.
pub open spec fn origin(root: Node, frames: Seq<FrameView>) -> Node
    decreases frames.len(),
{
    if frames.len() <= 1 {
        root
    } else {
        origin(root, frames.drop_last())->entries[frames.last().name]
    }
}

/// The tree in which `inner` stands under the name `name` in the innermost
/// directory of `outer`, and every directory of `outer` is in the middle of
/// its processing.
pub open spec fn plug(
    root: Node,
    outer: Seq<FrameView>,
    name: Seq<char>,
    inner: Node,
    task: Task,
) -> Node
    decreases outer.len(),
{
    if outer.len() == 0 {
        inner
    } else {
        let frame = outer.last();
        let around = Node::Dir {
            entries: partly(origin(root, outer), frame.todo, task)->entries.insert(name, inner),
        };
        plug(root, outer.drop_last(), frame.name, around, task)
    }
}

/// The tree on the filesystem when the directories of `frames` are in the
/// middle of their processing, the innermost with its listing known. With
/// no directory left the root has been pruned.
pub open spec fn shape(root: Node, frames: Seq<FrameView>, task: Task) -> Node {
    if frames.len() == 0 {
        root.pruned(task.age, task.now)
    } else {
        plug(
            root,
            frames.drop_last(),
            frames.last().name,
            partly(origin(root, frames), frames.last().todo, task),
            task,
        )
    }
}

/// Whether `frames` describes a processing of `root` that has gone right so
/// far: each directory is an unmarked directory of the tree, its entries
/// still to be dealt with are entries of it, its flag tells whether all the
/// others went, and it is the current entry of the directory around it.
pub open spec fn sound(root: Node, frames: Seq<FrameView>, task: Task) -> bool
    decreases frames.len(),
{
    frames.len() == 0 || {
        let frame = frames.last();
        let dir = origin(root, frames);
        &&& dir is Dir
        &&& dir.well_formed()
        &&& !dir.marked()
        &&& part_of(frame.todo, dir)
        &&& frame.all_removed == cleared(dir, frame.todo, task)
        &&& if frames.len() == 1 {
            frame.name == task.root
        } else {
            let around = frames[frames.len() - 2];
            &&& around.todo.len() > 0
            &&& around.todo.last().is_dir
            &&& around.todo.last().name == frame.name
        }
        &&& sound(root, frames.drop_last(), task)
    }
}

/// The path of the node called `name` in the innermost directory of
/// `outer`, counted from the root.
pub open spec fn place(outer: Seq<FrameView>, name: Seq<char>) -> Seq<Seq<char>> {
    names(outer).push(name).skip(1)
}

/// Whether every node of `root` that pruning leaves exactly as it is, such
/// as a file that is not stale or a marked directory, is in `tree` where
/// it was and as it was.
pub open spec fn spared(root: Node, tree: Node, task: Task) -> bool {
    forall|path: Seq<Seq<char>>|
        (#[trigger] root.lookup(path)) is Some && root.lookup(path).unwrap().intact(
            task.age,
            task.now,
        ) ==> tree.lookup(path) == root.lookup(path)
}

/// Whether the innermost directory of `frames` has just been entered, with
/// everything around it sound.
pub open spec fn entered(root: Node, frames: Seq<FrameView>, task: Task) -> bool {
    let outer = frames.drop_last();
    &&& frames.len() > 0
    &&& frames.last() == fresh(frames.last().name)
    &&& sound(root, outer, task)
    &&& if outer.len() == 0 {
        frames.last().name == task.root
    } else {
        &&& outer.last().todo.len() > 0
        &&& outer.last().todo.last().is_dir
        &&& outer.last().todo.last().name == frames.last().name
    }
}

/// The tree on the filesystem when the innermost directory of `frames` has
/// just been entered.
pub open spec fn untouched(root: Node, frames: Seq<FrameView>, task: Task) -> Node {
    if frames.len() <= 1 {
        root
    } else {
        shape(root, frames.drop_last(), task)
    }
}

/// Whether the current entry of the innermost directory is a file.
pub open spec fn at_file(root: Node, frames: Seq<FrameView>, task: Task) -> bool {
    &&& sound(root, frames, task)
    &&& frames.len() > 0
    &&& frames.last().todo.len() > 0
    &&& !frames.last().todo.last().is_dir
}

/// What holds at every moment of a run of `task` on the tree `root` against
/// a filesystem that answers truly: the pruner's frames describe how far
/// the tree on the filesystem has been pruned, and the pending request fits
/// that tree. A run that is over has ended well and left the pruned tree, or
/// has come upon a file modified after the reference time, or has been told
/// of a failure. Whatever has happened, what pruning leaves as it is has
/// been left as it is.
pub open spec fn holds(task: Task, root: Node, moment: Moment) -> bool {
    let frames = moment.state.frames;
    let tree = moment.tree;
    &&& moment.state.task == task
    &&& tree is Dir
    &&& spared(root, tree, task)
    &&& match moment.state.pending {
        None => match moment.action {
            ActionView::Finish { outcome: Ok(_) } => tree == root.pruned(task.age, task.now),
            ActionView::Finish { outcome: Err(error) } => error is Io || (error is ClockSkew
                && !root.timely(task.now)),
            _ => false,
        },
        Some(request) => {
            &&& moment.action == ask(task, frames, request).action
            &&& match request {
                Request::RootExists => frames.len() == 0 && tree == root,
                Request::HasMarker => entered(root, frames, task) && tree == untouched(
                    root,
                    frames,
                    task,
                ),
                Request::List => {
                    &&& entered(root, frames, task)
                    &&& tree == untouched(root, frames, task)
                    &&& !origin(root, frames).marked()
                },
                Request::Modified => at_file(root, frames, task) && tree == shape(
                    root,
                    frames,
                    task,
                ),
                Request::RemoveFile => {
                    &&& at_file(root, frames, task)
                    &&& tree == shape(root, frames, task)
                    &&& origin(root, frames)->entries[frames.last().todo.last().name].survivor(
                        task.age,
                        task.now,
                    ) is None
                },
                Request::RemoveDir => {
                    &&& sound(root, frames, task)
                    &&& tree == shape(root, frames, task)
                    &&& frames.len() >= 2
                    &&& frames.last().todo.len() == 0
                    &&& frames.last().all_removed
                },
            }
        },
    }
}

/// The moment that `step` leads to on the tree `tree`.
pub open spec fn moment_of(step: Step, tree: Node) -> Moment {
    Moment { state: step.state, action: step.action, tree }
}

/// The moment after `event` has answered the request of `moment`.
pub open spec fn after(moment: Moment, event: EventView) -> Moment {
    moment_of(moment.state.next(event), effect(moment.tree, moment.action, event))
}

} // verus!
