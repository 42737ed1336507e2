use emcp_tools::{
    cleanup_stale_data, marker_name, Action, Entry, Event, PruneError, Pruner, Request,
};
use std::collections::BTreeMap;

const SECOND: i128 = 1_000_000_000;
const NOW: i128 = 1_700_000_000 * SECOND;

/// A directory tree held in memory, which answers the pruner's requests as
/// a filesystem would.
#[derive(Clone, Debug, PartialEq)]
enum Node {
    File(i128),
    Dir(BTreeMap<String, Node>),
}

struct Disk {
    root: Option<Node>,
    /// A request that is made to fail, whatever the tree holds.
    broken: Option<(Request, Vec<String>)>,
    /// Every request that was made, in order.
    log: Vec<(Request, Vec<String>)>,
}

fn dir(entries: Vec<(&str, Node)>) -> Node {
    Node::Dir(entries.into_iter().map(|(name, node)| (name.to_string(), node)).collect())
}

fn path(parts: &[&str]) -> Vec<String> {
    parts.iter().map(|part| part.to_string()).collect()
}

impl Disk {
    fn new(root: Node) -> Disk {
        Disk { root: Some(root), broken: None, log: Vec::new() }
    }

    fn find(&self, place: &[String]) -> Option<&Node> {
        let mut node = self.root.as_ref()?;
        for name in place {
            match node {
                Node::Dir(entries) => node = entries.get(name)?,
                Node::File(_) => return None,
            }
        }
        Some(node)
    }

    fn has(&self, parts: &[&str]) -> bool {
        self.find(&path(parts)).is_some()
    }

    fn take(&mut self, place: &[String]) -> Option<Node> {
        let (name, above) = place.split_last()?;
        let mut node = self.root.as_mut()?;
        for step in above {
            match node {
                Node::Dir(entries) => node = entries.get_mut(step)?,
                Node::File(_) => return None,
            }
        }
        match node {
            Node::Dir(entries) => entries.remove(name),
            Node::File(_) => None,
        }
    }

    fn perform(&mut self, request: Request, target: &[String]) -> Event {
        self.log.push((request, target.to_vec()));
        if let Some((broken, place)) = &self.broken {
            if *broken == request && place.as_slice() == target {
                return Event::Failed("permission denied".to_string());
            }
        }
        let place = &target[1..];
        match request {
            Request::RootExists => Event::Found(self.root.is_some()),
            Request::HasMarker => {
                let mut marker = place.to_vec();
                marker.push(marker_name().to_string());
                Event::Found(self.find(&marker).is_some())
            }
            Request::List => match self.find(place) {
                Some(Node::Dir(entries)) => Event::Listing(
                    entries
                        .iter()
                        .map(|(name, node)| Entry {
                            name: name.clone(),
                            is_dir: matches!(node, Node::Dir(_)),
                        })
                        .collect(),
                ),
                _ => Event::Failed("not a directory".to_string()),
            },
            Request::Modified => match self.find(place) {
                Some(Node::File(modified)) => Event::ModifiedAt(*modified),
                _ => Event::Failed("no such file".to_string()),
            },
            Request::RemoveFile => match self.find(place) {
                Some(Node::File(_)) => {
                    self.take(place);
                    Event::Removed
                }
                _ => Event::Failed("no such file".to_string()),
            },
            Request::RemoveDir => match self.find(place) {
                Some(Node::Dir(entries)) if entries.is_empty() && !place.is_empty() => {
                    self.take(place);
                    Event::Removed
                }
                _ => Event::Failed("directory not empty".to_string()),
            },
        }
    }
}

/// Runs the pruner on `disk` until it finishes.
fn prune(disk: &mut Disk, root: &str, age: u128, now: i128) -> Result<(), PruneError> {
    let (mut pruner, mut action) = cleanup_stale_data(root, age, now);
    for _ in 0..10_000 {
        match action {
            Action::Finish { outcome } => {
                assert!(pruner.is_finished());
                return outcome;
            }
            Action::Perform { request, path } => {
                assert!(!pruner.is_finished());
                assert_eq!(path[0], root);
                let event = disk.perform(request, &path);
                let next = pruner.step(event);
                pruner = next.0;
                action = next.1;
            }
        }
    }
    panic!("the run did not end");
}

fn seconds(n: u128) -> u128 {
    n * 1_000_000_000
}

/// A directory with a file modified ten seconds ago and one modified a
/// moment ago, with a marker if `keep` is set.
fn old_and_new(keep: bool) -> Node {
    let mut entries = vec![
        ("old_file.txt", Node::File(NOW - 10 * SECOND)),
        ("new_file.txt", Node::File(NOW - 1_000_000)),
    ];
    if keep {
        entries.push((".keep", Node::File(NOW - 1_000_000)));
    }
    dir(entries)
}

fn start(root: &str, age: u128, now: i128) -> Pruner {
    let (pruner, action) = cleanup_stale_data(root, age, now);
    assert_eq!(action, Action::Perform { request: Request::RootExists, path: path(&[root]) });
    pruner
}

#[test]
fn test_cleanup_stale_data() {
    let mut disk = Disk::new(dir(vec![
        ("test1", old_and_new(false)),
        ("keep_dir", old_and_new(true)),
    ]));
    assert_eq!(prune(&mut disk, "tmp", seconds(5), NOW), Ok(()));

    assert!(!disk.has(&["test1", "old_file.txt"]));
    assert!(disk.has(&["test1", "new_file.txt"]));

    assert!(disk.has(&["keep_dir", "old_file.txt"]));
    assert!(disk.has(&["keep_dir", "new_file.txt"]));
    assert!(disk.has(&["keep_dir", ".keep"]));

    let mut disk = Disk::new(old_and_new(false));
    assert_eq!(prune(&mut disk, "test_not_remove_given", 0, NOW), Ok(()));

    assert!(disk.has(&[]));
    assert!(!disk.has(&["old_file.txt"]));
    assert!(!disk.has(&["new_file.txt"]));
    assert_eq!(disk.root, Some(dir(vec![])));
}

#[test]
fn stale_file_goes_and_its_emptied_directory_after_it() {
    let mut disk = Disk::new(dir(vec![(
        "test1",
        dir(vec![("old_file.txt", Node::File(NOW - 10 * SECOND))]),
    )]));
    assert_eq!(prune(&mut disk, "root", seconds(5), NOW), Ok(()));
    assert!(!disk.has(&["test1", "old_file.txt"]));
    assert!(!disk.has(&["test1"]));
    assert!(disk.has(&[]));
    assert_eq!(
        disk.log,
        vec![
            (Request::RootExists, path(&["root"])),
            (Request::HasMarker, path(&["root"])),
            (Request::List, path(&["root"])),
            (Request::HasMarker, path(&["root", "test1"])),
            (Request::List, path(&["root", "test1"])),
            (Request::Modified, path(&["root", "test1", "old_file.txt"])),
            (Request::RemoveFile, path(&["root", "test1", "old_file.txt"])),
            (Request::RemoveDir, path(&["root", "test1"])),
        ]
    );
}

#[test]
fn directory_with_a_young_file_stays() {
    let mut disk = Disk::new(dir(vec![("test1", old_and_new(false))]));
    assert_eq!(prune(&mut disk, "root", seconds(5), NOW), Ok(()));
    assert!(!disk.has(&["test1", "old_file.txt"]));
    assert_eq!(disk.find(&path(&["test1", "new_file.txt"])), Some(&Node::File(NOW - 1_000_000)));
    assert!(disk.has(&["test1"]));
    assert!(!disk.log.iter().any(|(request, _)| *request == Request::RemoveDir));
}

#[test]
fn marked_directory_is_left_as_it_is() {
    let before = dir(vec![(
        "keep_dir",
        dir(vec![
            (".keep", Node::File(NOW - 100 * SECOND)),
            ("old_file.txt", Node::File(NOW - 10 * SECOND)),
            ("new_file.txt", Node::File(NOW)),
            ("deep", dir(vec![("older.txt", Node::File(NOW - 1000 * SECOND)), ("void", dir(vec![]))])),
        ]),
    )]);
    let mut disk = Disk::new(before.clone());
    assert_eq!(prune(&mut disk, "root", seconds(5), NOW), Ok(()));
    assert_eq!(disk.root, Some(before));
    assert_eq!(
        disk.log,
        vec![
            (Request::RootExists, path(&["root"])),
            (Request::HasMarker, path(&["root"])),
            (Request::List, path(&["root"])),
            (Request::HasMarker, path(&["root", "keep_dir"])),
        ]
    );
}

#[test]
fn marked_root_is_left_as_it_is() {
    let before = dir(vec![
        (".keep", Node::File(NOW)),
        ("old_file.txt", Node::File(NOW - 10 * SECOND)),
        ("sub", dir(vec![])),
    ]);
    let mut disk = Disk::new(before.clone());
    assert_eq!(prune(&mut disk, "root", 0, NOW), Ok(()));
    assert_eq!(disk.root, Some(before));
    assert_eq!(disk.log.len(), 2);
}

#[test]
fn marker_shelters_neither_siblings_nor_ancestors() {
    let mut disk = Disk::new(dir(vec![
        ("a", dir(vec![
            ("kept", dir(vec![(".keep", Node::File(NOW)), ("old", Node::File(NOW - 10 * SECOND))])),
            ("old", Node::File(NOW - 10 * SECOND)),
        ])),
        ("b", dir(vec![("old", Node::File(NOW - 10 * SECOND))])),
    ]));
    assert_eq!(prune(&mut disk, "root", seconds(5), NOW), Ok(()));
    assert!(disk.has(&["a", "kept", "old"]));
    assert!(disk.has(&["a", "kept", ".keep"]));
    assert!(!disk.has(&["a", "old"]));
    assert!(disk.has(&["a"]));
    assert!(!disk.has(&["b"]));
}

#[test]
fn root_with_only_stale_files_is_emptied_and_stays() {
    let mut disk = Disk::new(dir(vec![
        ("a.txt", Node::File(NOW - SECOND)),
        ("b.txt", Node::File(NOW - 1)),
    ]));
    assert_eq!(prune(&mut disk, "root", 0, NOW), Ok(()));
    assert_eq!(disk.root, Some(dir(vec![])));
    assert!(!disk.log.iter().any(|(request, _)| *request == Request::RemoveDir));
}

#[test]
fn empty_directory_is_removed_by_its_parent() {
    let mut disk = Disk::new(dir(vec![("void", dir(vec![]))]));
    assert_eq!(prune(&mut disk, "root", seconds(5), NOW), Ok(()));
    assert!(!disk.has(&["void"]));
    assert_eq!(disk.log.last(), Some(&(Request::RemoveDir, path(&["root", "void"]))));
}

#[test]
fn empty_root_stays() {
    let mut disk = Disk::new(dir(vec![]));
    assert_eq!(prune(&mut disk, "root", 0, NOW), Ok(()));
    assert_eq!(disk.root, Some(dir(vec![])));
    assert_eq!(
        disk.log,
        vec![
            (Request::RootExists, path(&["root"])),
            (Request::HasMarker, path(&["root"])),
            (Request::List, path(&["root"])),
        ]
    );
}

#[test]
fn nested_directories_go_bottom_up() {
    let mut disk = Disk::new(dir(vec![(
        "a",
        dir(vec![("b", dir(vec![("c", dir(vec![("old", Node::File(NOW - 10 * SECOND))]))]))]),
    )]));
    assert_eq!(prune(&mut disk, "root", seconds(5), NOW), Ok(()));
    assert_eq!(disk.root, Some(dir(vec![])));
    let removals: Vec<_> = disk
        .log
        .iter()
        .filter(|(request, _)| matches!(request, Request::RemoveFile | Request::RemoveDir))
        .cloned()
        .collect();
    assert_eq!(
        removals,
        vec![
            (Request::RemoveFile, path(&["root", "a", "b", "c", "old"])),
            (Request::RemoveDir, path(&["root", "a", "b", "c"])),
            (Request::RemoveDir, path(&["root", "a", "b"])),
            (Request::RemoveDir, path(&["root", "a"])),
        ]
    );
}

#[test]
fn ancestors_of_a_young_file_stay() {
    let mut disk = Disk::new(dir(vec![(
        "a",
        dir(vec![
            ("b", dir(vec![("young", Node::File(NOW - SECOND))])),
            ("c", dir(vec![("old", Node::File(NOW - 10 * SECOND))])),
        ]),
    )]));
    assert_eq!(prune(&mut disk, "root", seconds(5), NOW), Ok(()));
    assert!(disk.has(&["a", "b", "young"]));
    assert!(disk.has(&["a", "b"]));
    assert!(disk.has(&["a"]));
    assert!(!disk.has(&["a", "c"]));
}

#[test]
fn file_exactly_at_the_threshold_is_kept() {
    let mut disk = Disk::new(dir(vec![
        ("at", Node::File(NOW - 5 * SECOND)),
        ("past", Node::File(NOW - 5 * SECOND - 1)),
    ]));
    assert_eq!(prune(&mut disk, "root", seconds(5), NOW), Ok(()));
    assert!(disk.has(&["at"]));
    assert!(!disk.has(&["past"]));
}

#[test]
fn file_modified_at_the_reference_time_survives_age_zero() {
    let mut disk = Disk::new(dir(vec![("now", Node::File(NOW))]));
    assert_eq!(prune(&mut disk, "root", 0, NOW), Ok(()));
    assert!(disk.has(&["now"]));
}

#[test]
fn second_run_changes_nothing() {
    let mut disk = Disk::new(dir(vec![
        ("test1", old_and_new(false)),
        ("keep_dir", old_and_new(true)),
        ("gone", dir(vec![("old", Node::File(NOW - 10 * SECOND))])),
    ]));
    assert_eq!(prune(&mut disk, "root", seconds(5), NOW), Ok(()));
    let after_first = disk.root.clone();
    disk.log.clear();
    assert_eq!(prune(&mut disk, "root", seconds(5), NOW), Ok(()));
    assert_eq!(disk.root, after_first);
    assert!(!disk
        .log
        .iter()
        .any(|(request, _)| matches!(request, Request::RemoveFile | Request::RemoveDir)));
}

#[test]
fn missing_root_is_an_error_and_nothing_is_touched() {
    let mut disk = Disk { root: None, broken: None, log: Vec::new() };
    assert_eq!(
        prune(&mut disk, "/no/such/dir", seconds(5), NOW),
        Err(PruneError::MissingRoot { dir: "/no/such/dir".to_string() })
    );
    assert_eq!(disk.log, vec![(Request::RootExists, path(&["/no/such/dir"]))]);
}

#[test]
fn failed_deletion_ends_the_run() {
    let mut disk = Disk::new(dir(vec![
        ("a", Node::File(NOW - 10 * SECOND)),
        ("b", Node::File(NOW - 10 * SECOND)),
        ("c", Node::File(NOW - 10 * SECOND)),
    ]));
    disk.broken = Some((Request::RemoveFile, path(&["root", "b"])));
    assert_eq!(
        prune(&mut disk, "root", seconds(5), NOW),
        Err(PruneError::Io {
            request: Request::RemoveFile,
            path: path(&["root", "b"]),
            reason: "permission denied".to_string(),
        })
    );
    // The listing is taken from its end: `c` went before `b` failed, and
    // `a` was never looked at.
    assert!(!disk.has(&["c"]));
    assert!(disk.has(&["b"]));
    assert!(disk.has(&["a"]));
    assert_eq!(disk.log.last(), Some(&(Request::RemoveFile, path(&["root", "b"]))));
    assert!(!disk.log.iter().any(|(_, target)| *target == path(&["root", "a"])));
}

#[test]
fn failed_listing_ends_the_run() {
    let mut disk = Disk::new(dir(vec![("sub", dir(vec![("old", Node::File(0))]))]));
    disk.broken = Some((Request::List, path(&["root", "sub"])));
    assert_eq!(
        prune(&mut disk, "root", seconds(5), NOW),
        Err(PruneError::Io {
            request: Request::List,
            path: path(&["root", "sub"]),
            reason: "permission denied".to_string(),
        })
    );
    assert!(disk.has(&["sub", "old"]));
}

#[test]
fn failed_directory_removal_ends_the_run() {
    let mut disk = Disk::new(dir(vec![
        ("first", dir(vec![])),
        ("second", dir(vec![])),
    ]));
    disk.broken = Some((Request::RemoveDir, path(&["root", "second"])));
    assert_eq!(
        prune(&mut disk, "root", seconds(5), NOW),
        Err(PruneError::Io {
            request: Request::RemoveDir,
            path: path(&["root", "second"]),
            reason: "permission denied".to_string(),
        })
    );
    assert!(disk.has(&["first"]));
    assert!(disk.has(&["second"]));
}

#[test]
fn file_from_the_future_ends_the_run() {
    let mut disk = Disk::new(dir(vec![
        ("old", Node::File(NOW - 10 * SECOND)),
        ("soon", Node::File(NOW + 1)),
    ]));
    assert_eq!(
        prune(&mut disk, "root", seconds(5), NOW),
        Err(PruneError::ClockSkew { path: path(&["root", "soon"]) })
    );
    assert!(disk.has(&["soon"]));
    assert!(disk.has(&["old"]));
}

#[test]
fn answer_out_of_turn_is_a_protocol_error() {
    let pruner = start("root", 0, NOW);
    let (pruner, action) = pruner.step(Event::Removed);
    assert_eq!(action, Action::Finish { outcome: Err(PruneError::Protocol) });
    assert!(pruner.is_finished());

    let pruner = start("root", 0, NOW);
    let (pruner, _) = pruner.step(Event::Found(true));
    let (pruner, action) = pruner.step(Event::Listing(vec![]));
    assert_eq!(action, Action::Finish { outcome: Err(PruneError::Protocol) });
    assert!(pruner.is_finished());

    let pruner = start("root", 0, NOW);
    let (pruner, _) = pruner.step(Event::Found(true));
    let (pruner, _) = pruner.step(Event::Found(false));
    let (_, action) = pruner.step(Event::ModifiedAt(0));
    assert_eq!(action, Action::Finish { outcome: Err(PruneError::Protocol) });
}

#[test]
fn finished_run_asks_for_nothing_more() {
    let pruner = start("root", 0, NOW);
    let (pruner, action) = pruner.step(Event::Found(false));
    assert_eq!(
        action,
        Action::Finish { outcome: Err(PruneError::MissingRoot { dir: "root".to_string() }) }
    );
    let (pruner, action) = pruner.step(Event::Found(true));
    assert_eq!(action, Action::Finish { outcome: Err(PruneError::Protocol) });
    let (pruner, action) = pruner.step(Event::Failed("late".to_string()));
    assert_eq!(action, Action::Finish { outcome: Err(PruneError::Protocol) });
    assert!(pruner.is_finished());
}

#[test]
fn failure_carries_the_request_and_its_path() {
    let pruner = start("root", 0, NOW);
    let (_, action) = pruner.step(Event::Failed("unreachable".to_string()));
    assert_eq!(
        action,
        Action::Finish {
            outcome: Err(PruneError::Io {
                request: Request::RootExists,
                path: path(&["root"]),
                reason: "unreachable".to_string(),
            })
        }
    );

    let pruner = start("root", seconds(5), NOW);
    let (pruner, _) = pruner.step(Event::Found(true));
    let (pruner, _) = pruner.step(Event::Found(false));
    let (pruner, action) =
        pruner.step(Event::Listing(vec![Entry { name: "f".to_string(), is_dir: false }]));
    assert_eq!(action, Action::Perform { request: Request::Modified, path: path(&["root", "f"]) });
    let (_, action) = pruner.step(Event::Failed("gone".to_string()));
    assert_eq!(
        action,
        Action::Finish {
            outcome: Err(PruneError::Io {
                request: Request::Modified,
                path: path(&["root", "f"]),
                reason: "gone".to_string(),
            })
        }
    );
}

#[test]
fn steps_of_a_small_run() {
    let pruner = start("root", seconds(5), NOW);
    let (pruner, action) = pruner.step(Event::Found(true));
    assert_eq!(action, Action::Perform { request: Request::HasMarker, path: path(&["root"]) });
    let (pruner, action) = pruner.step(Event::Found(false));
    assert_eq!(action, Action::Perform { request: Request::List, path: path(&["root"]) });
    let (pruner, action) = pruner.step(Event::Listing(vec![
        Entry { name: "young".to_string(), is_dir: false },
        Entry { name: "sub".to_string(), is_dir: true },
    ]));
    assert_eq!(
        action,
        Action::Perform { request: Request::HasMarker, path: path(&["root", "sub"]) }
    );
    let (pruner, action) = pruner.step(Event::Found(false));
    assert_eq!(action, Action::Perform { request: Request::List, path: path(&["root", "sub"]) });
    let (pruner, action) = pruner.step(Event::Listing(vec![]));
    assert_eq!(
        action,
        Action::Perform { request: Request::RemoveDir, path: path(&["root", "sub"]) }
    );
    let (pruner, action) = pruner.step(Event::Removed);
    assert_eq!(
        action,
        Action::Perform { request: Request::Modified, path: path(&["root", "young"]) }
    );
    let (pruner, action) = pruner.step(Event::ModifiedAt(NOW - 5 * SECOND));
    assert_eq!(action, Action::Finish { outcome: Ok(()) });
    assert!(pruner.is_finished());
}

/// Two answers for a file, three for a directory, and those of its entries.
fn weight(node: &Node) -> usize {
    match node {
        Node::File(_) => 2,
        Node::Dir(entries) => 3 + entries.values().map(weight).sum::<usize>(),
    }
}

#[test]
fn run_takes_no_more_requests_than_the_tree_weighs() {
    let tree = dir(vec![
        ("test1", old_and_new(false)),
        ("keep_dir", old_and_new(true)),
        ("a", dir(vec![("b", dir(vec![("old", Node::File(NOW - 10 * SECOND))]))])),
        ("void", dir(vec![])),
    ]);
    let bound = weight(&tree) + 1;
    let mut disk = Disk::new(tree);
    assert_eq!(prune(&mut disk, "root", seconds(5), NOW), Ok(()));
    assert!(disk.log.len() <= bound);

    let all_stale = dir(vec![("a", dir(vec![("old", Node::File(0))]))]);
    let bound = weight(&all_stale) + 1;
    let mut disk = Disk::new(all_stale);
    assert_eq!(prune(&mut disk, "root", 0, NOW), Ok(()));
    assert_eq!(disk.log.len(), bound - 1);
}

#[test]
fn marker_is_called_keep() {
    assert_eq!(marker_name(), ".keep");
}

#[test]
fn entry_clone_is_equal() {
    let entry = Entry { name: "a".to_string(), is_dir: true };
    assert_eq!(entry.clone(), entry);
}
