//! A mathematical model of a directory tree, and what pruning makes of it.
use crate::clock::stale;
use vstd::prelude::*;

verus! {

/// A file or a directory. A directory maps the names of its immediate
/// entries to the entries themselves.
pub enum Node {
    File { modified: int },
    Dir { entries: Map<Seq<char>, Node> },
}

/// The name of the marker: a directory that holds an entry of this name is
/// exempt from pruning, with everything below it.
pub open spec fn marker() -> Seq<char> {
    ".keep"@
}

/// The name of the marker.
pub fn marker_name() -> (name: &'static str)
    ensures
        name@ == marker(),
{
    ".keep"
}

impl Node {
    /// Every directory in the tree has finitely many entries.
    pub open spec fn well_formed(self) -> bool
        decreases self,
    {
        match self {
            Node::File { .. } => true,
            Node::Dir { entries } => {
                &&& entries.dom().finite()
                &&& forall|name: Seq<char>|
                    entries.dom().contains(name) ==> (#[trigger] entries[name]).well_formed()
            },
        }
    }

    /// Whether this is a directory that holds the marker.
    pub open spec fn marked(self) -> bool {
        self is Dir && self->entries.dom().contains(marker())
    }

    /// What is left of this node after pruning at reference time `now` with
    /// threshold `age`, or `None` if it is deleted. A file goes if it is
    /// stale. A marked directory stays as it is. Any other directory keeps
    /// what is left of its entries, and goes if nothing is.
    pub open spec fn survivor(self, age: int, now: int) -> Option<Node>
        decreases self, 1int,
    {
        match self {
            Node::File { modified } => if stale(now, modified, age) {
                None
            } else {
                Some(self)
            },
            Node::Dir { entries } => {
                if self.marked() || !entries.dom().finite() {
                    Some(self)
                } else if self.remains(age, now).dom() =~= Set::empty() {
                    None
                } else {
                    Some(Node::Dir { entries: self.remains(age, now) })
                }
            },
        }
    }

    /// The entries of the directory `self` that pruning does not delete,
    /// each as pruning leaves it.
    pub open spec fn remains(self, age: int, now: int) -> Map<Seq<char>, Node>
        decreases self, 0int,
    {
        match self {
            Node::File { .. } => Map::empty(),
            Node::Dir { entries } => Map::new(
                |name: Seq<char>|
                    entries.dom().finite() && entries.dom().contains(name) && entries[name].survivor(
                        age,
                        now,
                    ) is Some,
                |name: Seq<char>|
                    if entries.dom().finite() && entries.dom().contains(name) {
                        entries[name].survivor(age, now).unwrap()
                    } else {
                        self
                    },
            ),
        }
    }

    /// The tree that pruning the directory `self` leaves behind. The
    /// directory itself always stays, even when nothing is left in it.
    pub open spec fn pruned(self, age: int, now: int) -> Node {
        match self.survivor(age, now) {
            Some(rest) => rest,
            None => Node::Dir { entries: Map::empty() },
        }
    }

    /// Whether no file that pruning looks at was modified after `now`:
    /// that is, no file outside the marked directories.
    pub open spec fn timely(self, now: int) -> bool
        decreases self,
    {
        match self {
            Node::File { modified } => modified <= now,
            Node::Dir { entries } => self.marked() || !entries.dom().finite() || forall|
                name: Seq<char>,
            |
                entries.dom().contains(name) ==> (#[trigger] entries[name]).timely(now),
        }
    }

    /// Whether pruning leaves this node exactly as it is.
    pub open spec fn intact(self, age: int, now: int) -> bool {
        self.survivor(age, now) == Some(self)
    }

    /// Whether a marked directory lies on the way along `path`, counting
    /// this node and the node that `path` leads to.
    pub open spec fn sheltered(self, path: Seq<Seq<char>>) -> bool
        decreases path.len(),
    {
        self.marked() || (path.len() > 0 && match self {
            Node::File { .. } => false,
            Node::Dir { entries } => entries.dom().contains(path[0]) && entries[path[0]].sheltered(
                path.skip(1),
            ),
        })
    }

    /// The node that `path` leads to from here, if there is one.
    pub open spec fn lookup(self, path: Seq<Seq<char>>) -> Option<Node>
        decreases path.len(),
    {
        if path.len() == 0 {
            Some(self)
        } else {
            match self {
                Node::File { .. } => None,
                Node::Dir { entries } => {
                    if entries.dom().contains(path[0]) {
                        entries[path[0]].lookup(path.skip(1))
                    } else {
                        None
                    }
                },
            }
        }
    }
}

/// What pruning leaves of a well-formed tree is well-formed, a file is left
/// as it was, and a directory is left as a directory with no entry that it
/// did not have.
pub proof fn survivor_is_well_formed(node: Node, age: int, now: int)
    requires
        node.well_formed(),
        node.survivor(age, now) is Some,
    ensures
        node.survivor(age, now).unwrap().well_formed(),
        node is File ==> node.survivor(age, now) == Some(node),
        node is Dir ==> {
            let rest = node.survivor(age, now).unwrap();
            &&& rest is Dir
            &&& rest->entries.dom().subset_of(node->entries.dom())
            &&& node.marked() == rest.marked()
        },
    decreases node,
{
    match node {
        Node::File { .. } => {},
        Node::Dir { entries } => {
            if !node.marked() {
                let rest = node.survivor(age, now).unwrap();
                let kept = rest->entries;
                assert(kept.dom().subset_of(entries.dom()));
                vstd::set_lib::lemma_set_subset_finite(entries.dom(), kept.dom());
                assert forall|name: Seq<char>| kept.dom().contains(name) implies (
                #[trigger] kept[name]).well_formed() by {
                    survivor_is_well_formed(entries[name], age, now);
                }
            }
        },
    }
}

/// Where `path` leads to a node that pruning leaves exactly as it is, every
/// node on the way stays, and `path` leads to the same node afterwards.
pub proof fn intact_nodes_stay(node: Node, path: Seq<Seq<char>>, age: int, now: int)
    requires
        node.well_formed(),
        node.lookup(path) is Some,
        node.lookup(path).unwrap().intact(age, now),
    ensures
        node.survivor(age, now) is Some,
        node.survivor(age, now).unwrap().lookup(path) == node.lookup(path),
    decreases path.len(),
{
    if path.len() > 0 {
        let entries = node->entries;
        let child = entries[path[0]];
        intact_nodes_stay(child, path.skip(1), age, now);
        if !node.marked() {
            assert(node.remains(age, now).dom().contains(path[0]));
        }
    }
}

/// Where `path` leads to a node that pruning deletes, with no marked
/// directory on the way, `path` leads nowhere in what is left.
pub proof fn deleted_nodes_go(node: Node, path: Seq<Seq<char>>, age: int, now: int)
    requires
        node.well_formed(),
        node.lookup(path) is Some,
        node.lookup(path).unwrap().survivor(age, now) is None,
        !node.sheltered(path),
    ensures
        node.survivor(age, now) matches Some(rest) ==> rest.lookup(path) is None,
    decreases path.len(),
{
    if path.len() > 0 {
        let entries = node->entries;
        let child = entries[path[0]];
        deleted_nodes_go(child, path.skip(1), age, now);
    }
}

/// A path that leads somewhere leads somewhere from each of its starts.
pub proof fn lookup_prefix(node: Node, path: Seq<Seq<char>>, rest: Seq<Seq<char>>)
    requires
        node.lookup(path + rest) is Some,
    ensures
        node.lookup(path) is Some,
        node.lookup(path).unwrap().lookup(rest) == node.lookup(path + rest),
    decreases path.len(),
{
    if path.len() == 0 {
        assert(path + rest =~= rest);
    } else {
        let whole = path + rest;
        assert(whole.skip(1) =~= path.skip(1) + rest);
        lookup_prefix(node->entries[path[0]], path.skip(1), rest);
    }
}

/// A file that is stale, with no marked directory above it, is absent
/// after pruning.
pub proof fn stale_files_are_deleted(
    root: Node,
    path: Seq<Seq<char>>,
    modified: int,
    age: int,
    now: int,
)
    requires
        root.well_formed(),
        root is Dir,
        root.lookup(path) == Some(Node::File { modified }),
        stale(now, modified, age),
        !root.sheltered(path),
    ensures
        root.pruned(age, now).lookup(path) is None,
{
    deleted_nodes_go(root, path, age, now);
}

/// A file that is not stale is present after pruning, with the time of
/// modification that it had.
pub proof fn young_files_are_kept(
    root: Node,
    path: Seq<Seq<char>>,
    modified: int,
    age: int,
    now: int,
)
    requires
        root.well_formed(),
        root is Dir,
        root.lookup(path) == Some(Node::File { modified }),
        !stale(now, modified, age),
    ensures
        root.pruned(age, now).lookup(path) == Some(Node::File { modified }),
{
    intact_nodes_stay(root, path, age, now);
}

/// A directory that holds the marker is after pruning what it was before:
/// every path that led into it leads to the same node.
pub proof fn marked_directories_are_untouched(
    root: Node,
    path: Seq<Seq<char>>,
    age: int,
    now: int,
)
    requires
        root.well_formed(),
        root is Dir,
        root.lookup(path) is Some,
        root.lookup(path).unwrap().marked(),
    ensures
        root.pruned(age, now).lookup(path) == root.lookup(path),
        forall|below: Seq<Seq<char>>|
            root.pruned(age, now).lookup(path + below) == root.lookup(path + below),
{
    intact_nodes_stay(root, path, age, now);
    let after = root.pruned(age, now);
    assert forall|below: Seq<Seq<char>>|
        after.lookup(path + below) == root.lookup(path + below) by {
        lookup_from(root, path, below);
        lookup_from(after, path, below);
    }
}

/// Looking up a path in two stretches is looking it up whole.
pub proof fn lookup_from(node: Node, path: Seq<Seq<char>>, rest: Seq<Seq<char>>)
    requires
        node.lookup(path) is Some,
    ensures
        node.lookup(path + rest) == node.lookup(path).unwrap().lookup(rest),
    decreases path.len(),
{
    if path.len() == 0 {
        assert(path + rest =~= rest);
    } else {
        let whole = path + rest;
        assert(whole.skip(1) =~= path.skip(1) + rest);
        assert(whole[0] == path[0]);
        lookup_from(node->entries[path[0]], path.skip(1), rest);
    }
}

/// The directory that is pruned is a directory afterwards, whatever was
/// deleted in it.
pub proof fn root_remains(root: Node, age: int, now: int)
    requires
        root.well_formed(),
        root is Dir,
    ensures
        root.pruned(age, now) is Dir,
        root.pruned(age, now).lookup(Seq::empty()) is Some,
{
    if root.survivor(age, now) is Some {
        survivor_is_well_formed(root, age, now);
    }
}

/// A directory below the root, with no marked directory on the way to it
/// and none of whose entries is left by pruning, is absent afterwards.
pub proof fn emptied_directories_are_deleted(
    root: Node,
    path: Seq<Seq<char>>,
    age: int,
    now: int,
)
    requires
        root.well_formed(),
        root is Dir,
        path.len() > 0,
        root.lookup(path) is Some,
        root.lookup(path).unwrap() is Dir,
        !root.sheltered(path),
        forall|name: Seq<char>| #[trigger]
            root.lookup(path).unwrap()->entries.dom().contains(name) ==> root.lookup(
                path,
            ).unwrap()->entries[name].survivor(age, now) is None,
    ensures
        root.pruned(age, now).lookup(path) is None,
{
    let dir = root.lookup(path).unwrap();
    lookup_is_well_formed(root, path);
    not_sheltered_not_marked(root, path);
    assert(dir.survivor(age, now) is None);
    deleted_nodes_go(root, path, age, now);
}

/// What a path leads to in a well-formed tree is well-formed.
pub proof fn lookup_is_well_formed(node: Node, path: Seq<Seq<char>>)
    requires
        node.well_formed(),
        node.lookup(path) is Some,
    ensures
        node.lookup(path).unwrap().well_formed(),
    decreases path.len(),
{
    if path.len() > 0 {
        lookup_is_well_formed(node->entries[path[0]], path.skip(1));
    }
}

/// With no marked directory along a path, the node at its end is not one.
pub proof fn not_sheltered_not_marked(node: Node, path: Seq<Seq<char>>)
    requires
        node.lookup(path) is Some,
        !node.sheltered(path),
    ensures
        !node.lookup(path).unwrap().marked(),
    decreases path.len(),
{
    if path.len() > 0 {
        not_sheltered_not_marked(node->entries[path[0]], path.skip(1));
    }
}

/// A directory below which a file that is not stale or a marked directory
/// lies is present after pruning, and so is every directory above it:
/// each start of the path to such a node still leads somewhere.
pub proof fn occupied_directories_remain(
    root: Node,
    path: Seq<Seq<char>>,
    below: Seq<Seq<char>>,
    age: int,
    now: int,
)
    requires
        root.well_formed(),
        root is Dir,
        root.lookup(path + below) is Some,
        ({
            let held = root.lookup(path + below).unwrap();
            held.marked() || (held matches Node::File { modified } && !stale(now, modified, age))
        }),
    ensures
        root.pruned(age, now).lookup(path) is Some,
        root.pruned(age, now).lookup(path + below) == root.lookup(path + below),
{
    intact_nodes_stay(root, path + below, age, now);
    lookup_prefix(root.pruned(age, now), path, below);
}

/// Pruning leaves nothing for a second pruning to do.
pub proof fn survivor_is_intact(node: Node, age: int, now: int)
    requires
        node.well_formed(),
        node.survivor(age, now) is Some,
    ensures
        node.survivor(age, now).unwrap().intact(age, now),
    decreases node,
{
    match node {
        Node::File { .. } => {},
        Node::Dir { entries } => {
            if !node.marked() {
                survivor_is_well_formed(node, age, now);
                let rest = node.survivor(age, now).unwrap();
                let kept = rest->entries;
                assert forall|name: Seq<char>| kept.dom().contains(name) implies (
                #[trigger] kept[name]).intact(age, now) by {
                    survivor_is_intact(entries[name], age, now);
                }
                let again = rest.survivor(age, now);
                assert(again is Some) by {
                    let name = choose|name: Seq<char>| kept.dom().contains(name);
                    assert(kept.dom().contains(name));
                    assert(kept[name].intact(age, now));
                }
                assert(again.unwrap()->entries =~= kept);
            }
        },
    }
}

/// Pruning twice with the same threshold and reference time leaves what
/// pruning once leaves.
pub proof fn pruning_is_idempotent(root: Node, age: int, now: int)
    requires
        root.well_formed(),
        root is Dir,
    ensures
        root.pruned(age, now).pruned(age, now) == root.pruned(age, now),
{
    if root.survivor(age, now) is Some {
        survivor_is_intact(root, age, now);
    } else {
        let bare = Node::Dir { entries: Map::empty() };
        assert(bare.survivor(age, now) is None);
    }
}

} // verus!
