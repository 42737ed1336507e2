//! How a filesystem that holds a given tree answers the pruner's requests,
//! and what a run of the pruner against such a filesystem comes to.
use crate::protocol::{ActionView, EntryView, EventView, Request};
use crate::pruner::{StateView, Task};
use crate::tree::{marker, Node};
use vstd::prelude::*;

verus! {

/// The tree without the entry that `path` leads to.
pub open spec fn without(node: Node, path: Seq<Seq<char>>) -> Node
    decreases path.len(),
{
    match node {
        Node::File { .. } => node,
        Node::Dir { entries } => {
            if path.len() == 0 || !entries.dom().contains(path[0]) {
                node
            } else if path.len() == 1 {
                Node::Dir { entries: entries.remove(path[0]) }
            } else {
                Node::Dir {
                    entries: entries.insert(path[0], without(entries[path[0]], path.skip(1))),
                }
            }
        },
    }
}

/// Whether `listing` names each entry of `entries` once, and nothing else,
/// and tells files from directories.
pub open spec fn lists(listing: Seq<EntryView>, entries: Map<Seq<char>, Node>) -> bool {
    &&& forall|i: int|
        0 <= i < listing.len() ==> {
            &&& entries.dom().contains((#[trigger] listing[i]).name)
            &&& listing[i].is_dir == (entries[listing[i].name] is Dir)
        }
    &&& forall|i: int, j: int|
        0 <= i < j < listing.len() ==> (#[trigger] listing[i]).name != (#[trigger] listing[j]).name
    &&& forall|name: Seq<char>| #[trigger]
        entries.dom().contains(name) ==> exists|i: int|
            0 <= i < listing.len() && (#[trigger] listing[i]).name == name
}

/// Whether `event` is a true answer to `action` from a filesystem that holds
/// `tree` as the directory called `root`. Any request may fail. One that
/// does not fail tells what the tree holds at its path, and a deletion is
/// carried out only on what can be deleted: a file, or an empty directory
/// below the root. Nothing answers the end of a run.
pub open spec fn answers(tree: Node, root: Seq<char>, action: ActionView, event: EventView) -> bool {
    match action {
        ActionView::Finish { .. } => false,
        ActionView::Perform { request, path } => {
            let place = path.skip(1);
            let found = tree.lookup(place);
            &&& path.len() > 0
            &&& path[0] == root
            &&& event is Failed || match request {
                Request::RootExists => event == EventView::Found(true),
                Request::HasMarker => event == EventView::Found(
                    tree.lookup(place.push(marker())) is Some,
                ),
                Request::List => {
                    &&& found matches Some(Node::Dir { entries })
                    &&& event matches EventView::Listing(listing)
                    &&& lists(listing, entries)
                },
                Request::Modified => {
                    &&& found matches Some(Node::File { modified })
                    &&& event == EventView::ModifiedAt(modified)
                },
                Request::RemoveFile => found is Some && found.unwrap() is File && event
                    == EventView::Removed,
                Request::RemoveDir => {
                    &&& found matches Some(Node::Dir { entries })
                    &&& place.len() > 0
                    &&& entries.dom() =~= Set::empty()
                    &&& event == EventView::Removed
                },
            }
        },
    }
}

/// Whether none of `events` is a failure.
pub open spec fn smooth(events: Seq<EventView>) -> bool {
    forall|i: int| 0 <= i < events.len() ==> !(#[trigger] events[i] is Failed)
}

/// The tree that the filesystem holds once it has answered `action` with
/// `event`: a deletion that was carried out takes its target away, and
/// nothing else changes anything.
pub open spec fn effect(tree: Node, action: ActionView, event: EventView) -> Node {
    match action {
        ActionView::Perform { request, path } => {
            if event is Removed && (request == Request::RemoveFile || request
                == Request::RemoveDir) {
                without(tree, path.skip(1))
            } else {
                tree
            }
        },
        ActionView::Finish { .. } => tree,
    }
}

/// A moment of a run: the pruner's state, the action it has handed out and
/// that has not been carried out yet, and the tree on the filesystem.
pub struct Moment {
    pub state: StateView,
    pub action: ActionView,
    pub tree: Node,
}

/// The moment that a run of `task` on `tree` has come to when its requests
/// have been answered with `events`, one after the other.
pub open spec fn run(task: Task, tree: Node, events: Seq<EventView>) -> Moment
    decreases events.len(),
{
    if events.len() == 0 {
        let first = StateView::initial(task);
        Moment { state: first.state, action: first.action, tree }
    } else {
        let before = run(task, tree, events.drop_last());
        let step = before.state.next(events.last());
        Moment {
            state: step.state,
            action: step.action,
            tree: effect(before.tree, before.action, events.last()),
        }
    }
}

/// Whether each of `events` was a true answer at its moment of the run.
pub open spec fn faithful(task: Task, tree: Node, events: Seq<EventView>) -> bool
    decreases events.len(),
{
    events.len() == 0 || {
        let before = run(task, tree, events.drop_last());
        &&& faithful(task, tree, events.drop_last())
        &&& answers(before.tree, task.root, before.action, events.last())
    }
}

} // verus!
