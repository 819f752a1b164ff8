//! The walk, one action and one event at a time.

use lore_revision::direct_write::{fresh_node, LeafContent};
use lore_revision::errors::{InvalidArguments, Refusal, StateError};
use lore_revision::node::{Address, Context, Node, StageMark, ROOT_NODE};
use lore_revision::walk::{Action, Component, Edit, Event, Phase, Target, Walk, WalkError};

fn component(name: &str, name_hash: u64) -> Component {
    Component { name: name.to_string(), name_hash }
}

fn content() -> LeafContent {
    LeafContent {
        address: Address {
            hash: lore_revision::node::Hash { high: 1, low: 2 },
            context: Context { id: 3 },
        },
        size: 10,
        mode: 4,
    }
}

fn start(target: Target) -> (Walk, Action<String>) {
    Walk::begin(vec![component("d", 100), component("f", 200)], target)
}

/// Goes on with an event that the walk expects.
fn go(walk: &mut Walk, event: Event<String>) -> Action<String> {
    assert!(walk.expects(&event));
    walk.step(event)
}

fn deleted(mut node: Node) -> Node {
    node.flags.staged_delete = true;
    node
}

#[test]
fn missing_components_are_added_and_marked() {
    let (mut walk, action) = start(Target::Leaf(content()));
    assert!(matches!(action, Action::Find { parent: ROOT_NODE, name_hash: 100 }));
    match go(&mut walk, Event::NotFound) {
        Action::Add { parent, record, component } => {
            assert_eq!((parent, component), (ROOT_NODE, 0));
            assert_eq!(record, fresh_node(100, None));
        }
        other => panic!("unexpected {:?}", other),
    }
    let action = go(&mut walk, Event::Added(7));
    assert!(matches!(action, Action::Mark { node: 7, mark: StageMark::Staged }));
    let action = go(&mut walk, Event::Marked);
    assert!(matches!(action, Action::Find { parent: 7, name_hash: 200 }));
    match go(&mut walk, Event::NotFound) {
        Action::Add { parent, record, component } => {
            assert_eq!((parent, component), (7, 1));
            assert_eq!(record, fresh_node(200, Some(content())));
        }
        other => panic!("unexpected {:?}", other),
    }
    let action = go(&mut walk, Event::Added(8));
    assert!(matches!(action, Action::Mark { node: 8, mark: StageMark::StagedAdd }));
    assert!(matches!(go(&mut walk, Event::Marked), Action::Finish(Ok(8))));
    assert_eq!(walk.cursor.phase, Phase::Finished);
}

#[test]
fn an_existing_directory_is_used_as_it_is() {
    let (mut walk, _) = start(Target::Leaf(content()));
    assert!(matches!(go(&mut walk, Event::Found(5)), Action::Load { node: 5 }));
    let action = go(&mut walk, Event::Loaded(Node::default()));
    assert!(matches!(action, Action::Find { parent: 5, name_hash: 200 }));
}

#[test]
fn an_existing_leaf_is_rewritten_noted_and_marked() {
    let (mut walk, _) = start(Target::Leaf(content()));
    go(&mut walk, Event::Found(5));
    go(&mut walk, Event::Loaded(Node::default()));
    go(&mut walk, Event::Found(6));
    match go(&mut walk, Event::Loaded(fresh_node(200, Some(content())))) {
        Action::Rewrite { node, edit } => {
            assert_eq!(node, 6);
            assert_eq!(edit, Edit { undelete: false, content: Some(content()) });
        }
        other => panic!("unexpected {:?}", other),
    }
    let action = go(&mut walk, Event::Rewritten { dirtied: true });
    assert!(matches!(action, Action::NoteModified { node: 6 }));
    let action = go(&mut walk, Event::Noted);
    assert!(matches!(action, Action::Mark { node: 6, mark: StageMark::StagedModify }));
    assert!(matches!(go(&mut walk, Event::Marked), Action::Finish(Ok(6))));
}

#[test]
fn a_block_that_was_dirty_already_is_not_noted_again() {
    let (mut walk, _) = start(Target::Leaf(content()));
    go(&mut walk, Event::Found(5));
    go(&mut walk, Event::Loaded(Node::default()));
    go(&mut walk, Event::Found(6));
    go(&mut walk, Event::Loaded(fresh_node(200, Some(content()))));
    let action = go(&mut walk, Event::Rewritten { dirtied: false });
    assert!(matches!(action, Action::Mark { node: 6, mark: StageMark::StagedModify }));
}

#[test]
fn a_deleted_node_of_the_right_kind_is_brought_back() {
    let (mut walk, _) = start(Target::Leaf(content()));
    go(&mut walk, Event::Found(5));
    match go(&mut walk, Event::Loaded(deleted(Node::default()))) {
        Action::Rewrite { node, edit } => {
            assert_eq!(node, 5);
            assert_eq!(edit, Edit { undelete: true, content: None });
        }
        other => panic!("unexpected {:?}", other),
    }
    let action = go(&mut walk, Event::Rewritten { dirtied: false });
    assert!(matches!(action, Action::Mark { node: 5, mark: StageMark::Staged }));
}

#[test]
fn a_deleted_node_of_the_wrong_kind_is_passed_over() {
    let (mut walk, _) = start(Target::Directory);
    go(&mut walk, Event::Found(5));
    let file = deleted(fresh_node(100, Some(content())));
    assert!(matches!(
        go(&mut walk, Event::Loaded(file)),
        Action::Add { parent: ROOT_NODE, component: 0, .. }
    ));
}

#[test]
fn a_live_node_of_the_wrong_kind_ends_the_walk() {
    let (mut walk, _) = start(Target::Leaf(content()));
    go(&mut walk, Event::Found(5));
    match go(&mut walk, Event::Loaded(fresh_node(100, Some(content())))) {
        Action::Finish(Err(error)) => {
            assert_eq!(error, WalkError::Refused(Refusal::NotADirectory { component: 0 }));
        }
        other => panic!("unexpected {:?}", other),
    }
    let (mut walk, _) = start(Target::Leaf(content()));
    go(&mut walk, Event::Found(5));
    go(&mut walk, Event::Loaded(Node::default()));
    go(&mut walk, Event::Found(6));
    match go(&mut walk, Event::Loaded(Node::default())) {
        Action::Finish(Err(error)) => {
            assert_eq!(error, WalkError::Refused(Refusal::NotAFile { component: 1 }));
        }
        other => panic!("unexpected {:?}", other),
    }
}

#[test]
fn a_link_is_neither_a_file_nor_a_directory() {
    let mut link = Node::default();
    link.flags.link = true;
    assert!(!link.is_file() && !link.is_directory());
    let (mut walk, _) = start(Target::Directory);
    go(&mut walk, Event::Found(5));
    assert!(matches!(
        go(&mut walk, Event::Loaded(link)),
        Action::Finish(Err(WalkError::Refused(Refusal::NotADirectory { component: 0 })))
    ));
}

#[test]
fn a_store_failure_ends_the_walk_wherever_it_is() {
    let events: Vec<Vec<Event<String>>> = vec![
        vec![],
        vec![Event::Found(5)],
        vec![Event::NotFound],
        vec![Event::NotFound, Event::Added(7)],
        vec![Event::Found(5), Event::Loaded(deleted(Node::default()))],
        vec![
            Event::Found(5),
            Event::Loaded(deleted(Node::default())),
            Event::Rewritten { dirtied: true },
        ],
    ];
    for sequence in events {
        let (mut walk, _) = start(Target::Leaf(content()));
        for event in sequence {
            go(&mut walk, event);
        }
        match go(&mut walk, Event::Failed("disk full".to_string())) {
            Action::Finish(Err(error)) => {
                assert_eq!(error, WalkError::Store("disk full".to_string()));
            }
            other => panic!("unexpected {:?}", other),
        }
        assert!(!walk.expects(&Event::<String>::NotFound));
    }
}

#[test]
fn only_fitting_events_are_expected() {
    let (walk, _) = start(Target::Directory);
    assert!(walk.expects(&Event::<String>::Found(1)));
    assert!(walk.expects(&Event::<String>::NotFound));
    assert!(!walk.expects(&Event::<String>::Loaded(Node::default())));
    assert!(!walk.expects(&Event::<String>::Rewritten { dirtied: true }));
    assert!(!walk.expects(&Event::<String>::Noted));
    assert!(!walk.expects(&Event::<String>::Added(1)));
    assert!(!walk.expects(&Event::<String>::Marked));
    assert!(walk.expects(&Event::Failed("x".to_string())));
}

#[test]
fn the_root_as_a_leaf_is_refused_at_once() {
    let (walk, action) = Walk::begin::<String>(Vec::new(), Target::Leaf(content()));
    assert!(matches!(
        action,
        Action::Finish(Err(WalkError::Refused(Refusal::RepositoryRoot)))
    ));
    assert!(!walk.expects(&Event::<String>::NotFound));
    let (_, action) = Walk::begin::<String>(Vec::new(), Target::Directory);
    assert!(matches!(action, Action::Finish(Ok(ROOT_NODE))));
}

#[test]
fn edits_bring_back_and_rewrite() {
    let mut node = deleted(fresh_node(1, Some(content())));
    Edit { undelete: false, content: None }.apply(&mut node);
    assert!(node.is_staged_delete());
    let newer = LeafContent { size: 99, ..content() };
    Edit { undelete: true, content: Some(newer) }.apply(&mut node);
    assert!(!node.is_staged_delete());
    assert_eq!(node.size, 99);
}

#[test]
fn refusals_are_explained() {
    assert_eq!(
        Refusal::RepositoryRoot.explain(""),
        StateError::InvalidArguments(InvalidArguments {
            reason: "cannot stage the repository root as a leaf".to_string(),
        })
    );
    assert_eq!(
        Refusal::NotAFile { component: 3 }.explain("x y"),
        StateError::Internal(InvalidArguments {
            reason: "cannot stage 'x y' as a file: an existing node there is not a file"
                .to_string(),
        })
    );
    assert_eq!(
        Refusal::NotADirectory { component: 0 }.explain("d"),
        StateError::Internal(InvalidArguments {
            reason: "cannot stage 'd' as a directory: an existing node there is not a directory"
                .to_string(),
        })
    );
}
