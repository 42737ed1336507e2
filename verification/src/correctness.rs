//! Proof that the pruner, run against a filesystem that answers truly,
//! prunes: what it leaves on the filesystem when it ends well is the pruned
//! tree, and whatever happens, what pruning keeps is kept.
use crate::clock::stale;
use crate::filesystem::{answers, faithful, lists, run, smooth, without, Moment};
use crate::tracking::{
    after, at_file, cleared, entered, holds, moment_of, on_list, origin, part_of, partly, place,
    plug, shape, sound, spared, untouched,
};
use crate::progress::{
    advance_cost, budget, listing_weight, settled_cost, weight_is_positive,
};
use crate::protocol::{ActionView, EntryView, EventView, Request};
use crate::pruner::{
    advance, fresh, leave, listed, names, settle, settle_asks, target, FrameView, Task,
};
use crate::tree::{
    emptied_directories_are_deleted, intact_nodes_stay, lookup_prefix, marker,
    pruning_is_idempotent, root_remains, stale_files_are_deleted, survivor_is_well_formed, Node,
};
use vstd::prelude::*;

verus! {

proof fn names_of_front(frames: Seq<FrameView>)
    requires
        frames.len() > 0,
    ensures
        names(frames) == names(frames.drop_last()).push(frames.last().name),
{
    assert(names(frames) =~= names(frames.drop_last()).push(frames.last().name));
}

/// A path that goes through a plugged node leads where it leads from that
/// node.
proof fn plug_lookup(
    root: Node,
    outer: Seq<FrameView>,
    name: Seq<char>,
    inner: Node,
    task: Task,
    rest: Seq<Seq<char>>,
)
    ensures
        plug(root, outer, name, inner, task).lookup(place(outer, name) + rest) == inner.lookup(
            rest,
        ),
    decreases outer.len(),
{
    if outer.len() == 0 {
        assert(place(outer, name) + rest =~= rest);
    } else {
        let frame = outer.last();
        let around = Node::Dir {
            entries: partly(origin(root, outer), frame.todo, task)->entries.insert(name, inner),
        };
        let further = seq![name] + rest;
        plug_lookup(root, outer.drop_last(), frame.name, around, task, further);
        names_of_front(outer);
        assert(place(outer, name) + rest =~= place(outer.drop_last(), frame.name) + further);
        assert(further.skip(1) =~= rest);
        assert(further[0] == name);
    }
}

/// Taking an entry away below a plugged node is plugging the node without
/// that entry.
proof fn plug_without(
    root: Node,
    outer: Seq<FrameView>,
    name: Seq<char>,
    inner: Node,
    task: Task,
    rest: Seq<Seq<char>>,
)
    requires
        rest.len() > 0,
    ensures
        without(plug(root, outer, name, inner, task), place(outer, name) + rest) == plug(
            root,
            outer,
            name,
            without(inner, rest),
            task,
        ),
    decreases outer.len(),
{
    if outer.len() == 0 {
        assert(place(outer, name) + rest =~= rest);
    } else {
        let frame = outer.last();
        let middle = partly(origin(root, outer), frame.todo, task)->entries;
        let around = Node::Dir { entries: middle.insert(name, inner) };
        let further = seq![name] + rest;
        plug_without(root, outer.drop_last(), frame.name, around, task, further);
        names_of_front(outer);
        assert(place(outer, name) + rest =~= place(outer.drop_last(), frame.name) + further);
        assert(further.skip(1) =~= rest);
        assert(further[0] == name);
        assert(middle.insert(name, inner).insert(name, without(inner, rest)) =~= middle.insert(
            name,
            without(inner, rest),
        ));
    }
}

/// What dealing with the last entry on the list makes of a directory in
/// the middle of its processing.
pub proof fn partly_step(dir: Node, todo: Seq<EntryView>, task: Task)
    requires
        dir is Dir,
        part_of(todo, dir),
        todo.len() > 0,
    ensures
        part_of(todo.drop_last(), dir),
        on_list(todo, todo.last().name),
        !on_list(todo.drop_last(), todo.last().name),
        partly(dir, todo, task)->entries.dom().contains(todo.last().name),
        partly(dir, todo, task)->entries[todo.last().name] == dir->entries[todo.last().name],
        cleared(dir, todo.drop_last(), task) == (cleared(dir, todo, task)
            && dir->entries[todo.last().name].survivor(task.age, task.now) is None),
        match dir->entries[todo.last().name].survivor(task.age, task.now) {
            Some(node) => partly(dir, todo.drop_last(), task) == Node::Dir {
                entries: partly(dir, todo, task)->entries.insert(todo.last().name, node),
            },
            None => partly(dir, todo.drop_last(), task) == Node::Dir {
                entries: partly(dir, todo, task)->entries.remove(todo.last().name),
            },
        },
{
    let name = todo.last().name;
    let fewer = todo.drop_last();
    let last = todo.len() - 1;
    assert(todo[last].name == name);
    assert(on_list(todo, name));
    assert forall|i: int| 0 <= i < fewer.len() implies fewer[i] == todo[i] by {}
    assert(!on_list(fewer, name)) by {
        if on_list(fewer, name) {
            let i = choose|i: int| 0 <= i < fewer.len() && (#[trigger] fewer[i]).name == name;
            assert(todo[i].name != todo[last].name);
        }
    }
    assert forall|other: Seq<char>| other != name implies on_list(fewer, other) == on_list(
        todo,
        other,
    ) by {
        if on_list(fewer, other) {
            let i = choose|i: int| 0 <= i < fewer.len() && (#[trigger] fewer[i]).name == other;
            assert(todo[i].name == other);
        }
        if on_list(todo, other) {
            let i = choose|i: int| 0 <= i < todo.len() && (#[trigger] todo[i]).name == other;
            assert(fewer[i].name == other);
        }
    }
    let now = partly(dir, todo, task)->entries;
    let then = partly(dir, fewer, task)->entries;
    match dir->entries[name].survivor(task.age, task.now) {
        Some(node) => {
            assert(then =~= now.insert(name, node));
        },
        None => {
            assert(then =~= now.remove(name));
        },
    }
    assert(part_of(fewer, dir)) by {
        assert forall|i: int| 0 <= i < fewer.len() implies {
            &&& dir->entries.dom().contains((#[trigger] fewer[i]).name)
            &&& fewer[i].is_dir == (dir->entries[fewer[i].name] is Dir)
        } by {
            assert(fewer[i] == todo[i]);
        }
        assert forall|i: int, j: int| 0 <= i < j < fewer.len() implies (#[trigger] fewer[i]).name
            != (#[trigger] fewer[j]).name by {
            assert(fewer[i] == todo[i]);
            assert(fewer[j] == todo[j]);
        }
    }
    if cleared(dir, fewer, task) {
        assert(dir->entries.dom().contains(name) && !on_list(fewer, name));
        assert forall|other: Seq<char>| #[trigger]
            dir->entries.dom().contains(other) && !on_list(
                todo,
                other,
            ) implies dir->entries[other].survivor(task.age, task.now) is None by {
            assert(other != name);
            assert(!on_list(fewer, other));
        }
    }
    if cleared(dir, todo, task) && dir->entries[name].survivor(task.age, task.now) is None {
        assert forall|other: Seq<char>| #[trigger]
            dir->entries.dom().contains(other) && !on_list(
                fewer,
                other,
            ) implies dir->entries[other].survivor(task.age, task.now) is None by {
            if other != name {
                assert(!on_list(todo, other));
            }
        }
    }
}

/// A directory all of whose entries have been dealt with is what pruning
/// leaves of it, and all its entries went exactly if pruning deletes it.
pub proof fn partly_done(dir: Node, task: Task)
    requires
        dir is Dir,
        dir.well_formed(),
        !dir.marked(),
    ensures
        partly(dir, Seq::empty(), task) == dir.pruned(task.age, task.now),
        cleared(dir, Seq::empty(), task) == (dir.survivor(task.age, task.now) is None),
        partly(dir, Seq::empty(), task)->entries.dom() =~= Set::empty() <==> cleared(
            dir,
            Seq::empty(),
            task,
        ),
{
    let none = Seq::<EntryView>::empty();
    let rest = dir.remains(task.age, task.now);
    assert forall|name: Seq<char>| !on_list(none, name) by {}
    assert(partly(dir, none, task)->entries =~= rest);
    if cleared(dir, none, task) {
        assert(rest.dom() =~= Set::empty());
    }
    if rest.dom() =~= Set::empty() {
        assert(rest =~= Map::<Seq<char>, Node>::empty());
        assert forall|name: Seq<char>| #[trigger]
            dir->entries.dom().contains(name) && !on_list(
                none,
                name,
            ) implies dir->entries[name].survivor(task.age, task.now) is None by {
            if dir->entries[name].survivor(task.age, task.now) is Some {
                assert(rest.dom().contains(name));
            }
        }
    }
}

/// A directory none of whose entries has been dealt with is as it was.
proof fn partly_begun(dir: Node, listing: Seq<EntryView>, task: Task)
    requires
        dir is Dir,
        lists(listing, dir->entries),
    ensures
        partly(dir, listing, task) == dir,
        part_of(listing, dir),
        cleared(dir, listing, task),
{
    assert forall|name: Seq<char>| dir->entries.dom().contains(name) implies on_list(
        listing,
        name,
    ) by {
        let i = choose|i: int| 0 <= i < listing.len() && (#[trigger] listing[i]).name == name;
        assert(listing[i].name == name);
    }
    assert(partly(dir, listing, task)->entries =~= dir->entries);
}

/// Dealing with the current entry of the innermost directory changes
/// nothing around that directory.
pub proof fn advance_keeps(root: Node, frames: Seq<FrameView>, removed: bool)
    requires
        frames.len() > 0,
        frames.last().todo.len() > 0,
    ensures
        advance(frames, removed).len() == frames.len(),
        advance(frames, removed).drop_last() == frames.drop_last(),
        advance(frames, removed).last().name == frames.last().name,
        advance(frames, removed).last().todo == frames.last().todo.drop_last(),
        advance(frames, removed).last().all_removed == (frames.last().all_removed && removed),
        origin(root, advance(frames, removed)) == origin(root, frames),
        names(advance(frames, removed)) == names(frames),
{
    let after = advance(frames, removed);
    assert(after.drop_last() =~= frames.drop_last());
    assert(names(after) =~= names(frames));
}

/// The tree with the current entry of the innermost directory in its place
/// is the tree as it stands.
proof fn plug_current(root: Node, frames: Seq<FrameView>, task: Task)
    requires
        sound(root, frames, task),
        frames.len() > 0,
        frames.last().todo.len() > 0,
    ensures
        plug(
            root,
            frames,
            frames.last().todo.last().name,
            origin(root, frames)->entries[frames.last().todo.last().name],
            task,
        ) == shape(root, frames, task),
{
    let dir = origin(root, frames);
    let todo = frames.last().todo;
    partly_step(dir, todo, task);
    let name = todo.last().name;
    let middle = partly(dir, todo, task)->entries;
    assert(middle.insert(name, dir->entries[name]) =~= middle);
}

/// When the current entry of the innermost directory has come to what
/// pruning leaves of it, the frames are sound with that entry dealt with,
/// and the tree is the tree with the entry in that state.
pub proof fn fold(root: Node, frames: Seq<FrameView>, task: Task, held: Node)
    requires
        sound(root, frames, task),
        frames.len() > 0,
        frames.last().todo.len() > 0,
    ensures
        ({
            let name = frames.last().todo.last().name;
            let left = origin(root, frames)->entries[name].survivor(task.age, task.now);
            &&& sound(root, advance(frames, left is None), task)
            &&& left matches Some(node) ==> shape(root, advance(frames, false), task) == plug(
                root,
                frames,
                name,
                node,
                task,
            )
            &&& left is None ==> shape(root, advance(frames, true), task) == without(
                plug(root, frames, name, held, task),
                place(frames, name),
            )
        }),
{
    let dir = origin(root, frames);
    let frame = frames.last();
    let todo = frame.todo;
    let name = todo.last().name;
    let left = dir->entries[name].survivor(task.age, task.now);
    let removed = left is None;
    let after = advance(frames, removed);
    advance_keeps(root, frames, removed);
    partly_step(dir, todo, task);
    assert(sound(root, after, task)) by {
        if frames.len() > 1 {
            assert(after[after.len() - 2] == frames[frames.len() - 2]) by {
                assert(after.drop_last()[after.len() - 2] == frames.drop_last()[frames.len()
                    - 2]);
            }
        }
    }
    let middle = partly(dir, todo, task)->entries;
    match left {
        Some(node) => {},
        None => {
            let around = Node::Dir { entries: middle.insert(name, held) };
            let outer = frames.drop_last();
            plug_without(root, outer, frame.name, around, task, seq![name]);
            names_of_front(frames);
            assert(place(frames, name) =~= place(outer, frame.name) + seq![name]);
            assert(middle.insert(name, held).remove(name) =~= middle.remove(name));
            assert(seq![name][0] == name);
            assert(without(around, seq![name]) == Node::Dir { entries: middle.remove(name) });
        },
    }
}

/// A directory whose entries are as they were or as pruning leaves them,
/// but for one that has spared what it should, has spared what it should.
proof fn level_spares(dir: Node, todo: Seq<EntryView>, task: Task, name: Seq<char>, inner: Node)
    requires
        dir is Dir,
        dir.well_formed(),
        !dir.marked(),
        dir->entries.dom().contains(name),
        on_list(todo, name) || dir->entries[name].survivor(task.age, task.now) is Some,
        spared(dir->entries[name], inner, task),
    ensures
        spared(
            dir,
            Node::Dir { entries: partly(dir, todo, task)->entries.insert(name, inner) },
            task,
        ),
{
    let entries = dir->entries;
    let around = Node::Dir { entries: partly(dir, todo, task)->entries.insert(name, inner) };
    assert forall|path: Seq<Seq<char>>|
        (#[trigger] dir.lookup(path)) is Some && dir.lookup(path).unwrap().intact(
            task.age,
            task.now,
        ) implies around.lookup(path) == dir.lookup(path) by {
        let node = dir.lookup(path).unwrap();
        if path.len() == 0 {
            let rest = dir.remains(task.age, task.now);
            assert(rest == entries);
            assert forall|other: Seq<char>| entries.dom().contains(other) implies (
            #[trigger] entries[other]).intact(task.age, task.now) by {
                assert(rest.dom().contains(other));
                assert(rest[other] == entries[other]);
            }
            assert(entries[name].lookup(Seq::empty()) == Some(entries[name]));
            assert(inner.lookup(Seq::empty()) == Some(entries[name]));
            assert(around->entries =~= entries);
        } else {
            let first = path[0];
            let rest = path.skip(1);
            if first == name {
                assert(entries[name].lookup(rest) == Some(node));
            } else if on_list(todo, first) {
            } else {
                intact_nodes_stay(entries[first], rest, task.age, task.now);
            }
        }
    }
}

/// A directory in the middle of its processing has spared what it should.
proof fn partly_spares(dir: Node, todo: Seq<EntryView>, task: Task)
    requires
        dir is Dir,
        dir.well_formed(),
        !dir.marked(),
    ensures
        spared(dir, partly(dir, todo, task), task),
{
    let entries = dir->entries;
    let now = partly(dir, todo, task);
    assert forall|path: Seq<Seq<char>>|
        (#[trigger] dir.lookup(path)) is Some && dir.lookup(path).unwrap().intact(
            task.age,
            task.now,
        ) implies now.lookup(path) == dir.lookup(path) by {
        let node = dir.lookup(path).unwrap();
        if path.len() == 0 {
            let rest = dir.remains(task.age, task.now);
            assert(rest == entries);
            assert forall|other: Seq<char>| entries.dom().contains(other) implies (
            #[trigger] entries[other]).intact(task.age, task.now) by {
                assert(rest.dom().contains(other));
                assert(rest[other] == entries[other]);
            }
            assert(now->entries =~= entries);
        } else {
            let first = path[0];
            let rest = path.skip(1);
            if on_list(todo, first) {
            } else {
                intact_nodes_stay(entries[first], rest, task.age, task.now);
            }
        }
    }
}

/// The tree around a node that has spared what it should has spared what
/// it should.
proof fn plug_spares(root: Node, outer: Seq<FrameView>, name: Seq<char>, inner: Node, task: Task)
    requires
        sound(root, outer, task),
        if outer.len() == 0 {
            spared(root, inner, task)
        } else {
            &&& outer.last().todo.len() > 0
            &&& outer.last().todo.last().name == name
            &&& spared(origin(root, outer)->entries[name], inner, task)
        },
    ensures
        spared(root, plug(root, outer, name, inner, task), task),
    decreases outer.len(),
{
    if outer.len() > 0 {
        let frame = outer.last();
        let dir = origin(root, outer);
        let around = Node::Dir {
            entries: partly(dir, frame.todo, task)->entries.insert(name, inner),
        };
        partly_step(dir, frame.todo, task);
        level_spares(dir, frame.todo, task, name, inner);
        let further = outer.drop_last();
        assert(sound(root, further, task));
        if further.len() > 0 {
            assert(outer[outer.len() - 2] == further.last());
        }
        plug_spares(root, further, frame.name, around, task);
    }
}

/// The tree around a directory is a directory.
proof fn plug_is_dir(root: Node, outer: Seq<FrameView>, name: Seq<char>, inner: Node, task: Task)
    requires
        inner is Dir,
    ensures
        plug(root, outer, name, inner, task) is Dir,
    decreases outer.len(),
{
    if outer.len() > 0 {
        let frame = outer.last();
        let around = Node::Dir {
            entries: partly(origin(root, outer), frame.todo, task)->entries.insert(name, inner),
        };
        plug_is_dir(root, outer.drop_last(), frame.name, around, task);
    }
}

/// The tree in the middle of its pruning has spared what it should.
proof fn shape_spares(root: Node, frames: Seq<FrameView>, task: Task)
    requires
        root.well_formed(),
        root is Dir,
        sound(root, frames, task),
    ensures
        spared(root, shape(root, frames, task), task),
        shape(root, frames, task) is Dir,
{
    if frames.len() == 0 {
        root_remains(root, task.age, task.now);
        let after = root.pruned(task.age, task.now);
        assert forall|path: Seq<Seq<char>>|
            (#[trigger] root.lookup(path)) is Some && root.lookup(path).unwrap().intact(
                task.age,
                task.now,
            ) implies after.lookup(path) == root.lookup(path) by {
            intact_nodes_stay(root, path, task.age, task.now);
        }
    } else {
        let outer = frames.drop_last();
        let dir = origin(root, frames);
        partly_spares(dir, frames.last().todo, task);
        assert(sound(root, outer, task));
        if outer.len() > 0 {
            assert(frames[frames.len() - 2] == outer.last());
        }
        plug_spares(root, outer, frames.last().name, partly(dir, frames.last().todo, task), task);
        plug_is_dir(root, outer, frames.last().name, partly(dir, frames.last().todo, task), task);
    }
}

/// The outermost frame of a sound processing is that of the task's
/// directory.
proof fn sound_from_root(root: Node, frames: Seq<FrameView>, task: Task)
    requires
        sound(root, frames, task),
        frames.len() > 0,
    ensures
        frames[0].name == task.root,
        names(frames)[0] == task.root,
    decreases frames.len(),
{
    if frames.len() > 1 {
        sound_from_root(root, frames.drop_last(), task);
    }
}

/// A path that goes through the innermost directory leads where it leads
/// from that directory as it stands.
proof fn top_lookup(root: Node, frames: Seq<FrameView>, task: Task, rest: Seq<Seq<char>>)
    requires
        frames.len() > 0,
    ensures
        shape(root, frames, task).lookup(names(frames).skip(1) + rest) == partly(
            origin(root, frames),
            frames.last().todo,
            task,
        ).lookup(rest),
{
    names_of_front(frames);
    plug_lookup(
        root,
        frames.drop_last(),
        frames.last().name,
        partly(origin(root, frames), frames.last().todo, task),
        task,
        rest,
    );
}

/// A directory that has just been entered is a well-formed directory of the
/// tree, and a path that goes through it leads where it leads from the
/// directory as it was.
pub proof fn entered_lookup(root: Node, frames: Seq<FrameView>, task: Task, rest: Seq<Seq<char>>)
    requires
        root.well_formed(),
        root is Dir,
        entered(root, frames, task),
    ensures
        origin(root, frames) is Dir,
        origin(root, frames).well_formed(),
        untouched(root, frames, task).lookup(names(frames).skip(1) + rest) == origin(
            root,
            frames,
        ).lookup(rest),
        names(frames)[0] == task.root,
{
    let outer = frames.drop_last();
    let name = frames.last().name;
    names_of_front(frames);
    if outer.len() == 0 {
        assert(names(frames).skip(1) + rest =~= rest);
    } else {
        let dir = origin(root, outer);
        let todo = outer.last().todo;
        partly_step(dir, todo, task);
        sound_from_root(root, outer, task);
        let further = seq![name] + rest;
        top_lookup(root, outer, task, further);
        assert(names(frames).skip(1) + rest =~= names(outer).skip(1) + further);
        assert(further.skip(1) =~= rest);
        assert(further[0] == name);
    }
}

/// The choice of the next request keeps what holds of a run.
proof fn settle_holds(task: Task, root: Node, frames: Seq<FrameView>)
    requires
        root.well_formed(),
        root is Dir,
        sound(root, frames, task),
    ensures
        holds(task, root, moment_of(settle(task, frames), shape(root, frames, task))),
        budget(root, moment_of(settle(task, frames), shape(root, frames, task)))
            <= settled_cost(root, frames),
    decreases frames.len(),
{
    let tree = shape(root, frames, task);
    let goal = moment_of(settle(task, frames), tree);
    shape_spares(root, frames, task);
    if frames.len() > 0 {
        let top = frames.last();
        let dir = origin(root, frames);
        if top.todo.len() > 0 {
            let entry = top.todo.last();
            advance_cost(root, frames, false);
            if entry.is_dir {
                let deeper = frames.push(fresh(entry.name));
                assert(deeper.drop_last() =~= frames);
                assert(deeper.last() == fresh(entry.name));
                assert(entered(root, deeper, task));
                assert(untouched(root, deeper, task) == tree);
                assert(holds(task, root, goal));
            } else {
                assert(at_file(root, frames, task));
                assert(holds(task, root, goal));
            }
        } else if frames.len() > 1 && top.all_removed {
            assert(holds(task, root, goal));
        } else {
            let outer = frames.drop_last();
            assert(top.todo =~= Seq::empty());
            partly_done(dir, task);
            if outer.len() == 0 {
                assert(leave(frames, false) =~= Seq::<FrameView>::empty());
                assert(tree == partly(dir, top.todo, task));
                assert(settle(task, frames) == settle(task, leave(frames, false)));
                assert(holds(task, root, goal));
            } else {
                let held = partly(dir, Seq::empty(), task);
                assert(frames[frames.len() - 2] == outer.last());
                assert(!top.all_removed);
                fold(root, outer, task, held);
                advance_cost(root, outer, false);
                assert(leave(frames, false) == advance(outer, false));
                assert(dir == origin(root, outer)->entries[outer.last().todo.last().name]);
                assert(dir.survivor(task.age, task.now) == Some(held));
                assert(shape(root, leave(frames, false), task) == tree);
                settle_holds(task, root, leave(frames, false));
                assert(holds(task, root, goal));
            }
        }
    }
}

/// A path of one name leads to the entry of that name.
proof fn lookup_one(dir: Node, name: Seq<char>)
    requires
        dir is Dir,
    ensures
        dir.lookup(seq![name]) == if dir->entries.dom().contains(name) {
            Some(dir->entries[name])
        } else {
            None
        },
{
    let path = seq![name];
    assert(path[0] == name);
    assert(path.skip(1).len() == 0);
    if dir->entries.dom().contains(name) {
        assert(dir->entries[name].lookup(path.skip(1)) == Some(dir->entries[name]));
    }
}

proof fn marker_step(task: Task, root: Node, moment: Moment, event: EventView)
    requires
        root.well_formed(),
        root is Dir,
        holds(task, root, moment),
        moment.state.pending == Some(Request::HasMarker),
        answers(moment.tree, task.root, moment.action, event),
        !(event is Failed),
    ensures
        holds(task, root, after(moment, event)),
        budget(root, after(moment, event)) < budget(root, moment),
{
    let frames = moment.state.frames;
    let outer = frames.drop_last();
    let dir = origin(root, frames);
    let there = names(frames).skip(1);
    entered_lookup(root, frames, task, seq![marker()]);
    assert(there.push(marker()) =~= there + seq![marker()]);
    lookup_one(dir, marker());
    assert(event == EventView::Found(dir.marked()));
    if dir.marked() {
        assert(dir.survivor(task.age, task.now) == Some(dir));
        if outer.len() == 0 {
            assert(leave(frames, false) =~= Seq::<FrameView>::empty());
            settle_holds(task, root, leave(frames, false));
        } else {
            fold(root, outer, task, dir);
            plug_current(root, outer, task);
            advance_cost(root, outer, false);
            settle_holds(task, root, leave(frames, false));
        }
    }
    weight_is_positive(dir);
}

proof fn list_step(task: Task, root: Node, moment: Moment, event: EventView)
    requires
        root.well_formed(),
        root is Dir,
        holds(task, root, moment),
        moment.state.pending == Some(Request::List),
        answers(moment.tree, task.root, moment.action, event),
        !(event is Failed),
    ensures
        holds(task, root, after(moment, event)),
        budget(root, after(moment, event)) < budget(root, moment),
{
    let frames = moment.state.frames;
    let outer = frames.drop_last();
    let name = frames.last().name;
    let dir = origin(root, frames);
    let there = names(frames).skip(1);
    entered_lookup(root, frames, task, Seq::empty());
    assert(there + Seq::<Seq<char>>::empty() =~= there);
    assert(moment.tree.lookup(there) == Some(dir));
    let listing = event->Listing_0;
    assert(event == EventView::Listing(listing));
    assert(lists(listing, dir->entries));
    partly_begun(dir, listing, task);
    listing_weight(dir, listing);
    let known = listed(frames, listing);
    assert(known.drop_last() =~= outer);
    assert(names(known) =~= names(frames));
    assert(origin(root, known) == dir);
    assert(sound(root, known, task)) by {
        if frames.len() > 1 {
            assert(known[known.len() - 2] == outer.last());
        }
    }
    assert(shape(root, known, task) == moment.tree) by {
        if outer.len() > 0 {
            plug_current(root, outer, task);
        }
    }
    settle_holds(task, root, known);
}

pub proof fn file_lookup(task: Task, root: Node, frames: Seq<FrameView>)
    requires
        root.well_formed(),
        root is Dir,
        at_file(root, frames, task),
    ensures
        ({
            let name = frames.last().todo.last().name;
            let path = target(task, frames, Request::Modified);
            &&& path == names(frames).push(name)
            &&& path == target(task, frames, Request::RemoveFile)
            &&& path[0] == task.root
            &&& path.skip(1) == place(frames, name)
            &&& origin(root, frames)->entries[name] is File
            &&& shape(root, frames, task).lookup(path.skip(1)) == Some(
                origin(root, frames)->entries[name],
            )
        }),
{
    let name = frames.last().todo.last().name;
    let dir = origin(root, frames);
    let path = names(frames).push(name);
    sound_from_root(root, frames, task);
    partly_step(dir, frames.last().todo, task);
    top_lookup(root, frames, task, seq![name]);
    assert(path.skip(1) =~= names(frames).skip(1) + seq![name]);
    lookup_one(partly(dir, frames.last().todo, task), name);
    let last = frames.last().todo.len() - 1;
    assert(frames.last().todo[last].is_dir == (dir->entries[name] is Dir));
}

/// Where no file that pruning looks at was modified after the reference
/// time, none was in the innermost directory.
proof fn origin_timely(root: Node, frames: Seq<FrameView>, task: Task)
    requires
        sound(root, frames, task),
        frames.len() > 0,
        root.timely(task.now),
    ensures
        origin(root, frames).timely(task.now),
    decreases frames.len(),
{
    if frames.len() > 1 {
        let outer = frames.drop_last();
        assert(sound(root, outer, task));
        origin_timely(root, outer, task);
        assert(frames[frames.len() - 2] == outer.last());
        let dir = origin(root, outer);
        let name = frames.last().name;
        partly_step(dir, outer.last().todo, task);
        assert(dir->entries.dom().contains(name));
        assert(dir->entries.dom().finite());
        assert(dir->entries[name].timely(task.now));
    }
}

proof fn modified_step(task: Task, root: Node, moment: Moment, event: EventView)
    requires
        root.well_formed(),
        root is Dir,
        holds(task, root, moment),
        moment.state.pending == Some(Request::Modified),
        answers(moment.tree, task.root, moment.action, event),
        !(event is Failed),
    ensures
        holds(task, root, after(moment, event)),
        budget(root, after(moment, event)) < budget(root, moment),
{
    let frames = moment.state.frames;
    let name = frames.last().todo.last().name;
    let file = origin(root, frames)->entries[name];
    file_lookup(task, root, frames);
    let modified = file->modified;
    assert(event == EventView::ModifiedAt(modified));
    advance_cost(root, frames, false);
    weight_is_positive(file);
    if modified > task.now {
        if root.timely(task.now) {
            origin_timely(root, frames, task);
            partly_step(origin(root, frames), frames.last().todo, task);
            assert(file.timely(task.now));
        }
    } else if stale(task.now, modified, task.age) {
    } else {
        assert(file.survivor(task.age, task.now) == Some(file));
        fold(root, frames, task, file);
        plug_current(root, frames, task);
        settle_holds(task, root, advance(frames, false));
    }
}

proof fn remove_file_step(task: Task, root: Node, moment: Moment, event: EventView)
    requires
        root.well_formed(),
        root is Dir,
        holds(task, root, moment),
        moment.state.pending == Some(Request::RemoveFile),
        answers(moment.tree, task.root, moment.action, event),
        !(event is Failed),
    ensures
        holds(task, root, after(moment, event)),
        budget(root, after(moment, event)) < budget(root, moment),
{
    let frames = moment.state.frames;
    let name = frames.last().todo.last().name;
    let file = origin(root, frames)->entries[name];
    file_lookup(task, root, frames);
    assert(event == EventView::Removed);
    fold(root, frames, task, file);
    plug_current(root, frames, task);
    advance_cost(root, frames, true);
    weight_is_positive(file);
    settle_holds(task, root, advance(frames, true));
}

proof fn remove_dir_step(task: Task, root: Node, moment: Moment, event: EventView)
    requires
        root.well_formed(),
        root is Dir,
        holds(task, root, moment),
        moment.state.pending == Some(Request::RemoveDir),
        answers(moment.tree, task.root, moment.action, event),
        !(event is Failed),
    ensures
        holds(task, root, after(moment, event)),
        budget(root, after(moment, event)) < budget(root, moment),
{
    let frames = moment.state.frames;
    let outer = frames.drop_last();
    let name = frames.last().name;
    let dir = origin(root, frames);
    let there = names(frames).skip(1);
    let none = Seq::<EntryView>::empty();
    assert(frames.last().todo =~= none);
    sound_from_root(root, frames, task);
    top_lookup(root, frames, task, Seq::empty());
    assert(there + Seq::<Seq<char>>::empty() =~= there);
    partly_done(dir, task);
    let held = partly(dir, none, task);
    assert(moment.tree.lookup(there) == Some(held));
    assert(there.len() > 0);
    assert(event == EventView::Removed);
    assert(frames[frames.len() - 2] == outer.last());
    fold(root, outer, task, held);
    advance_cost(root, outer, true);
    names_of_front(frames);
    assert(place(outer, name) =~= there);
    assert(leave(frames, true) == advance(outer, true));
    settle_holds(task, root, leave(frames, true));
}

/// A true answer keeps what holds of a run.
pub proof fn step_holds(task: Task, root: Node, moment: Moment, event: EventView)
    requires
        root.well_formed(),
        root is Dir,
        holds(task, root, moment),
        answers(moment.tree, task.root, moment.action, event),
    ensures
        holds(task, root, after(moment, event)),
        budget(root, after(moment, event)) < budget(root, moment),
{
    if event is Failed {
        let frames = moment.state.frames;
        assert(moment.state.pending is Some);
        assert(after(moment, event).tree == moment.tree);
        assert(holds(task, root, after(moment, event)));
        match moment.state.pending {
            Some(Request::HasMarker) | Some(Request::List) => {
                entered_lookup(root, frames, task, Seq::empty());
                weight_is_positive(origin(root, frames));
            },
            Some(Request::RemoveFile) => {
                advance_cost(root, frames, true);
                weight_is_positive(origin(root, frames)->entries[frames.last().todo.last().name]);
            },
            _ => {},
        }
    } else {
        match moment.state.pending {
            None => {},
            Some(Request::RootExists) => {
                let frames = seq![fresh(task.root)];
                assert(frames.drop_last() =~= Seq::<FrameView>::empty());
                assert(frames.last() == fresh(task.root));
                assert(event == EventView::Found(true));
                assert(after(moment, event).tree == root);
                assert(entered(root, frames, task));
                assert(holds(task, root, after(moment, event)));
            },
            Some(Request::HasMarker) => marker_step(task, root, moment, event),
            Some(Request::List) => list_step(task, root, moment, event),
            Some(Request::Modified) => modified_step(task, root, moment, event),
            Some(Request::RemoveFile) => remove_file_step(task, root, moment, event),
            Some(Request::RemoveDir) => remove_dir_step(task, root, moment, event),
        }
    }
}

/// At every moment of a run against a filesystem that answers truly, the
/// pruner's frames describe the tree on the filesystem.
pub proof fn run_holds(task: Task, root: Node, events: Seq<EventView>)
    requires
        root.well_formed(),
        root is Dir,
        faithful(task, root, events),
    ensures
        holds(task, root, run(task, root, events)),
    decreases events.len(),
{
    if events.len() > 0 {
        run_holds(task, root, events.drop_last());
        step_holds(task, root, run(task, root, events.drop_last()), events.last());
    }
}

/// A run ends with the error of a failed request only where a request has
/// failed.
pub proof fn failure_is_reported(task: Task, root: Node, events: Seq<EventView>)
    requires
        faithful(task, root, events),
        run(task, root, events).action matches ActionView::Finish { outcome: Err(error) }
            && error is Io,
    ensures
        !smooth(events),
{
    assert(events.len() > 0);
    let before = run(task, root, events.drop_last());
    let state = before.state;
    let event = events.last();
    if !(event is Failed) {
        settle_asks(state.task, leave(state.frames, false));
        settle_asks(state.task, leave(state.frames, true));
        settle_asks(state.task, advance(state.frames, false));
        settle_asks(state.task, advance(state.frames, true));
        if event is Listing {
            settle_asks(state.task, listed(state.frames, event->Listing_0));
        }
        assert(false);
    }
    assert(events[events.len() - 1] is Failed);
}

/// A run against a filesystem that answers truly, once it is over, has
/// ended in one of three ways. It has ended well and left on the filesystem
/// the tree that pruning makes of the tree it began with; or it has come
/// upon a file modified after the reference time; or a request has failed.
/// Where the tree holds no such file outside its marked directories and no
/// request fails, the run has ended well.
pub proof fn finished_run_has_pruned(task: Task, root: Node, events: Seq<EventView>)
    requires
        root.well_formed(),
        root is Dir,
        faithful(task, root, events),
        run(task, root, events).action is Finish,
    ensures
        match run(task, root, events).action->outcome {
            Ok(_) => run(task, root, events).tree == root.pruned(task.age, task.now),
            Err(error) => (error is Io && !smooth(events)) || (error is ClockSkew
                && !root.timely(task.now)),
        },
        root.timely(task.now) && smooth(events) ==> run(task, root, events).action->outcome
            is Ok,
{
    run_holds(task, root, events);
    if run(task, root, events).action matches ActionView::Finish { outcome: Err(error) }
        && error is Io {
        failure_is_reported(task, root, events);
    }
}

/// What pruning leaves of a well-formed directory is a well-formed
/// directory.
pub proof fn pruned_is_well_formed(root: Node, age: int, now: int)
    requires
        root.well_formed(),
        root is Dir,
    ensures
        root.pruned(age, now).well_formed(),
        root.pruned(age, now) is Dir,
{
    root_remains(root, age, now);
    if root.survivor(age, now) is Some {
        survivor_is_well_formed(root, age, now);
    }
}

/// A second run right after a run that ended well, with the same threshold
/// and reference time, leaves the filesystem as the first run left it.
pub proof fn second_run_changes_nothing(
    task: Task,
    root: Node,
    first: Seq<EventView>,
    second: Seq<EventView>,
)
    requires
        root.well_formed(),
        root is Dir,
        faithful(task, root, first),
        run(task, root, first).action == (ActionView::Finish { outcome: Ok(()) }),
        faithful(task, run(task, root, first).tree, second),
        run(task, run(task, root, first).tree, second).action == (ActionView::Finish {
            outcome: Ok(()),
        }),
    ensures
        run(task, run(task, root, first).tree, second).tree == run(task, root, first).tree,
{
    let between = run(task, root, first).tree;
    finished_run_has_pruned(task, root, first);
    pruned_is_well_formed(root, task.age, task.now);
    finished_run_has_pruned(task, between, second);
    pruning_is_idempotent(root, task.age, task.now);
}

/// At every moment of a run against a filesystem that answers truly, the
/// directory given to the run is there.
pub proof fn root_is_always_there(task: Task, root: Node, events: Seq<EventView>)
    requires
        root.well_formed(),
        root is Dir,
        faithful(task, root, events),
    ensures
        run(task, root, events).tree is Dir,
        run(task, root, events).tree.lookup(Seq::empty()) is Some,
{
    run_holds(task, root, events);
}

/// Whatever happens in a run against a filesystem that answers truly, be
/// it over or not, ended well or not: every file that is not stale and
/// every marked directory is on the filesystem where it was and as it was.
pub proof fn run_spares_what_pruning_keeps(
    task: Task,
    root: Node,
    events: Seq<EventView>,
    path: Seq<Seq<char>>,
)
    requires
        root.well_formed(),
        root is Dir,
        faithful(task, root, events),
        root.lookup(path) is Some,
        ({
            let node = root.lookup(path).unwrap();
            node.marked() || (node matches Node::File { modified } && !stale(
                task.now,
                modified,
                task.age,
            ))
        }),
    ensures
        run(task, root, events).tree.lookup(path) == root.lookup(path),
{
    run_holds(task, root, events);
    assert(root.lookup(path).unwrap().intact(task.age, task.now));
}

/// After a run that ended well against a filesystem that answers truly, a
/// file that was stale, with no marked directory above it, is absent.
pub proof fn finished_run_has_deleted_stale_files(
    task: Task,
    root: Node,
    events: Seq<EventView>,
    path: Seq<Seq<char>>,
    modified: int,
)
    requires
        root.well_formed(),
        root is Dir,
        faithful(task, root, events),
        run(task, root, events).action == (ActionView::Finish { outcome: Ok(()) }),
        root.lookup(path) == Some(Node::File { modified }),
        stale(task.now, modified, task.age),
        !root.sheltered(path),
    ensures
        run(task, root, events).tree.lookup(path) is None,
{
    finished_run_has_pruned(task, root, events);
    stale_files_are_deleted(root, path, modified, task.age, task.now);
}

/// After a run that ended well against a filesystem that answers truly, a
/// directory below the root, with no marked directory on the way to it and
/// none of whose entries pruning leaves, is absent.
pub proof fn finished_run_has_deleted_emptied_directories(
    task: Task,
    root: Node,
    events: Seq<EventView>,
    path: Seq<Seq<char>>,
)
    requires
        root.well_formed(),
        root is Dir,
        faithful(task, root, events),
        run(task, root, events).action == (ActionView::Finish { outcome: Ok(()) }),
        path.len() > 0,
        root.lookup(path) is Some,
        root.lookup(path).unwrap() is Dir,
        !root.sheltered(path),
        forall|name: Seq<char>| #[trigger]
            root.lookup(path).unwrap()->entries.dom().contains(name) ==> root.lookup(
                path,
            ).unwrap()->entries[name].survivor(task.age, task.now) is None,
    ensures
        run(task, root, events).tree.lookup(path) is None,
{
    finished_run_has_pruned(task, root, events);
    emptied_directories_are_deleted(root, path, task.age, task.now);
}

/// Whatever happens in a run against a filesystem that answers truly, a
/// directory below which a file that is not stale or a marked directory
/// lies is on the filesystem, and so is every directory above it.
pub proof fn run_keeps_occupied_directories(
    task: Task,
    root: Node,
    events: Seq<EventView>,
    path: Seq<Seq<char>>,
    below: Seq<Seq<char>>,
)
    requires
        root.well_formed(),
        root is Dir,
        faithful(task, root, events),
        root.lookup(path + below) is Some,
        ({
            let held = root.lookup(path + below).unwrap();
            held.marked() || (held matches Node::File { modified } && !stale(
                task.now,
                modified,
                task.age,
            ))
        }),
    ensures
        run(task, root, events).tree.lookup(path) is Some,
{
    run_spares_what_pruning_keeps(task, root, events, path + below);
    lookup_prefix(run(task, root, events).tree, path, below);
}

} // verus!
