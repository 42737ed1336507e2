//! Proof that a run of the pruner against a filesystem that answers truly
//! comes to an end: a bound on the answers a run can take, counted from
//! the tree it begins with.
use crate::correctness::{advance_keeps, partly_step, run_holds, step_holds};
use crate::tracking::{on_list, origin, part_of};
use crate::filesystem::{faithful, lists, run, Moment};
use crate::protocol::{EntryView, EventView, Request};
use crate::pruner::{advance, FrameView, Task};
use crate::tree::Node;
use vstd::prelude::*;

verus! {

/// Adds to a count the weight of the entry called `name`.
pub open spec fn tally(entries: Map<Seq<char>, Node>) -> spec_fn(nat, Seq<char>) -> nat
    decreases entries,
{
    |count: nat, name: Seq<char>|
        if entries.dom().finite() && entries.dom().contains(name) {
            count + weight(entries[name])
        } else {
            count
        }
}

/// The most answers that the processing of `node` can take: two for a file,
/// its time and its deletion, and three for a directory, its marker, its
/// listing and its deletion, on top of those of its entries.
pub open spec fn weight(node: Node) -> nat
    decreases node,
{
    match node {
        Node::File { .. } => 2,
        Node::Dir { entries } => 3 + entries.dom().fold(0nat, tally(entries)),
    }
}

/// The weight of the entries of `dir` that are still to be dealt with.
pub open spec fn queued(dir: Node, todo: Seq<EntryView>) -> nat
    decreases todo.len(),
{
    if todo.len() == 0 {
        0
    } else {
        queued(dir, todo.drop_last()) + weight(dir->entries[todo.last().name])
    }
}

/// The names of the entries still to be dealt with.
pub open spec fn listed_names(todo: Seq<EntryView>) -> Set<Seq<char>> {
    Set::new(|name: Seq<char>| on_list(todo, name))
}

proof fn tally_commutes(entries: Map<Seq<char>, Node>)
    ensures
        vstd::set::fold::is_fun_commutative(tally(entries)),
{
    let f = tally(entries);
    assert forall|a1: Seq<char>, a2: Seq<char>, b: nat| #[trigger]
        f(f(b, a2), a1) == f(f(b, a1), a2) by {}
}

/// The weight of the entries on a list is the weight that the directory
/// counts for their names.
proof fn queued_is_counted(dir: Node, todo: Seq<EntryView>)
    requires
        dir is Dir,
        dir->entries.dom().finite(),
        part_of(todo, dir),
    ensures
        listed_names(todo).finite(),
        queued(dir, todo) == listed_names(todo).fold(0nat, tally(dir->entries)),
    decreases todo.len(),
{
    let f = tally(dir->entries);
    if todo.len() == 0 {
        assert(listed_names(todo) =~= Set::empty());
        vstd::set::fold::lemma_fold_empty(0nat, f);
    } else {
        let fewer = todo.drop_last();
        let name = todo.last().name;
        let task = Task { root: Seq::empty(), age: 0, now: 0 };
        partly_step(dir, todo, task);
        queued_is_counted(dir, fewer);
        assert forall|other: Seq<char>| on_list(todo, other) == (other == name || on_list(
            fewer,
            other,
        )) by {
            if on_list(fewer, other) {
                let i = choose|i: int| 0 <= i < fewer.len() && (#[trigger] fewer[i]).name == other;
                assert(todo[i].name == other);
            }
            if on_list(todo, other) && other != name {
                let i = choose|i: int| 0 <= i < todo.len() && (#[trigger] todo[i]).name == other;
                assert(fewer[i].name == other);
            }
        }
        assert(listed_names(todo) =~= listed_names(fewer).insert(name));
        tally_commutes(dir->entries);
        vstd::set::fold::lemma_fold_insert(listed_names(fewer), 0nat, f, name);
    }
}

/// The entries of a directory weigh what the directory weighs, less the
/// three answers of its own.
pub proof fn listing_weight(dir: Node, listing: Seq<EntryView>)
    requires
        dir is Dir,
        dir->entries.dom().finite(),
        lists(listing, dir->entries),
    ensures
        queued(dir, listing) + 3 == weight(dir),
{
    assert(part_of(listing, dir));
    queued_is_counted(dir, listing);
    assert forall|name: Seq<char>| dir->entries.dom().contains(name) implies on_list(
        listing,
        name,
    ) by {
        let i = choose|i: int| 0 <= i < listing.len() && (#[trigger] listing[i]).name == name;
        assert(listing[i].name == name);
    }
    assert(listed_names(listing) =~= dir->entries.dom());
}

/// The most answers that the directories of `frames` can still take once
/// their current entries are done with: for each, those of its other
/// entries and that of its own deletion.
pub open spec fn outer_cost(root: Node, frames: Seq<FrameView>) -> nat
    decreases frames.len(),
{
    if frames.len() == 0 {
        0
    } else {
        outer_cost(root, frames.drop_last()) + queued(
            origin(root, frames),
            frames.last().todo.drop_last(),
        ) + 1
    }
}

/// The most answers that a run can still take when the innermost directory
/// of `frames` has its listing and waits for its next request.
pub open spec fn settled_cost(root: Node, frames: Seq<FrameView>) -> nat {
    if frames.len() == 0 {
        0
    } else {
        outer_cost(root, frames.drop_last()) + queued(origin(root, frames), frames.last().todo)
            + 1
    }
}

/// The most answers that a run can still take from `moment` on.
pub open spec fn budget(root: Node, moment: Moment) -> nat {
    let frames = moment.state.frames;
    match moment.state.pending {
        None => 0,
        Some(Request::RootExists) => weight(root) + 1,
        Some(Request::HasMarker) => outer_cost(root, frames.drop_last()) + weight(
            origin(root, frames),
        ),
        Some(Request::List) => (outer_cost(root, frames.drop_last()) + weight(
            origin(root, frames),
        ) - 1) as nat,
        Some(Request::Modified) => settled_cost(root, frames),
        Some(Request::RemoveFile) => (settled_cost(root, frames) - 1) as nat,
        Some(Request::RemoveDir) => settled_cost(root, frames),
    }
}

/// With the current entry of the innermost directory dealt with, a run can
/// take as many answers fewer as that entry weighs.
pub proof fn advance_cost(root: Node, frames: Seq<FrameView>, removed: bool)
    requires
        frames.len() > 0,
        frames.last().todo.len() > 0,
    ensures
        settled_cost(root, advance(frames, removed)) == outer_cost(root, frames),
        settled_cost(root, frames) == outer_cost(root, frames) + weight(
            origin(root, frames)->entries[frames.last().todo.last().name],
        ),
{
    advance_keeps(root, frames, removed);
}

/// Every node weighs at least the answers of its own.
pub proof fn weight_is_positive(node: Node)
    ensures
        weight(node) >= 2,
        node is Dir ==> weight(node) >= 3,
{
}

/// A run against a filesystem that answers truly takes no more answers
/// than the tree it began with weighs, and one for the question whether
/// the directory exists.
pub proof fn run_is_bounded(task: Task, root: Node, events: Seq<EventView>)
    requires
        root.well_formed(),
        root is Dir,
        faithful(task, root, events),
    ensures
        events.len() + budget(root, run(task, root, events)) <= weight(root) + 1,
        events.len() <= weight(root) + 1,
    decreases events.len(),
{
    if events.len() > 0 {
        let before = events.drop_last();
        run_is_bounded(task, root, before);
        run_holds(task, root, before);
        step_holds(task, root, run(task, root, before), events.last());
    }
}

} // verus!
