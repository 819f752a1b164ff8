//! Deleting, bringing back and moving.

use lore_revision::direct_write::{
    find_node_link, stage_delete_from_facts, stage_directory_from_facts, stage_leaf_from_facts,
    stage_move_from_facts, LeafContent,
};
use lore_revision::errors::{InvalidArguments, StateError};
use lore_revision::node::{Address, Context, NodeID};
use lore_revision::state::State;

fn hash_string(name: &str) -> u64 {
    let mut hash: u64 = 0xcbf29ce484222325;
    for byte in name.bytes() {
        hash = (hash ^ byte as u64).wrapping_mul(0x100000001b3);
    }
    hash
}

fn write_leaf(bytes: &[u8]) -> LeafContent {
    let mut digest: u128 = 1;
    for byte in bytes {
        digest = digest.wrapping_mul(257).wrapping_add(*byte as u128);
    }
    LeafContent {
        address: Address {
            hash: lore_revision::node::Hash { high: digest, low: 7 },
            context: Context { id: digest ^ 0xff },
        },
        size: bytes.len() as u64,
        mode: 0,
    }
}

fn leaf(state: &mut State, path: &str, bytes: &[u8]) -> NodeID {
    stage_leaf_from_facts(state, hash_string, path, write_leaf(bytes)).expect("Failed to stage")
}

fn find(state: &State, path: &str) -> Result<NodeID, StateError> {
    find_node_link(state, hash_string, path)
}

fn is_live(state: &State, path: &str) -> bool {
    match find(state, path) {
        Ok(id) => !state.node(id).expect("Failed to load").is_staged_delete(),
        Err(_) => false,
    }
}

fn invalid(reason: &str) -> StateError {
    StateError::InvalidArguments(InvalidArguments { reason: reason.to_string() })
}

#[test]
fn stage_directory_from_facts_creates_empty_directory() {
    let mut state = State::new();
    stage_directory_from_facts(&mut state, hash_string, "a/b")
        .expect("Failed to stage a/b as a directory");
    let id = find(&state, "a/b").expect("Failed to find a/b");
    let node = state.node(id).expect("Failed to load a/b");
    assert!(node.is_directory());
    assert!(!node.is_staged_delete());
}

#[test]
fn stage_delete_from_facts_hides_the_node_and_is_idempotent() {
    let mut state = State::new();
    leaf(&mut state, "a.txt", b"deleteme");
    let deleted = stage_delete_from_facts(&mut state, hash_string, "a.txt")
        .expect("delete must not error");
    assert!(deleted.is_some(), "a live node must report Some(node_id)");

    let id = find(&state, "a.txt").expect("staged-delete node stays resolvable by path");
    let node = state.node(id).expect("Failed to load a.txt");
    assert!(node.is_staged_delete());

    let again = stage_delete_from_facts(&mut state, hash_string, "a.txt")
        .expect("re-deleting must not error");
    assert!(again.is_none());

    let missing = stage_delete_from_facts(&mut state, hash_string, "never/existed.txt")
        .expect("deleting an absent path must not error");
    assert!(missing.is_none());
}

#[test]
fn stage_move_from_facts_relocates_content_and_replaces_destination() {
    let mut state = State::new();
    let content = write_leaf(b"moveme");
    let original = stage_leaf_from_facts(&mut state, hash_string, "src.txt", content)
        .expect("Failed to stage src.txt");
    let displaced = leaf(&mut state, "dst/dest.txt", b"will be overwritten");

    let moved = stage_move_from_facts(&mut state, hash_string, "src.txt", "dst/dest.txt")
        .expect("Failed to move src.txt -> dst/dest.txt");
    assert_eq!(moved, original, "a move keeps the node's identity");

    if let Ok(id) = find(&state, "src.txt") {
        let node = state.node(id).expect("Failed to load stale src.txt node");
        assert!(node.is_staged_delete(), "old parent must lose the moved node");
    }

    let id = find(&state, "dst/dest.txt").expect("Failed to find dst/dest.txt");
    assert_eq!(id, original);
    let node = state.node(id).expect("Failed to load dst/dest.txt");
    assert_eq!(node.address, content.address);
    assert_eq!(node.size, content.size);
    assert!(!node.is_staged_delete());
    assert!(node.flags.staged_move);
    assert!(state.node(displaced).unwrap().is_staged_delete());
}

#[test]
fn recreating_a_deleted_path_undeletes_instead_of_staying_hidden() {
    let mut state = State::new();
    leaf(&mut state, "a.txt", b"first");
    stage_delete_from_facts(&mut state, hash_string, "a.txt")
        .expect("delete must not error")
        .expect("a.txt was live");

    let second = write_leaf(b"second, after delete");
    let node_id = stage_leaf_from_facts(&mut state, hash_string, "a.txt", second)
        .expect("re-creating a deleted path must undelete, not error");

    let id = find(&state, "a.txt").expect("Failed to find a.txt");
    assert_eq!(id, node_id, "undelete reuses the same node identity");
    let node = state.node(id).expect("Failed to load a.txt");
    assert!(
        !node.is_staged_delete(),
        "recreating the path must clear the staged-delete flag"
    );
    assert_eq!(node.address, second.address);
    assert_eq!(node.size, second.size);
}

#[test]
fn recreating_a_deleted_path_as_a_different_kind_adds_alongside_it() {
    let mut state = State::new();
    let file = leaf(&mut state, "a", b"a file here first");
    stage_delete_from_facts(&mut state, hash_string, "a")
        .expect("delete must not error")
        .expect("'a' was live");

    stage_directory_from_facts(&mut state, hash_string, "a")
        .expect("staging a directory over a deleted file's path must succeed");

    let id = find(&state, "a").expect("Failed to find 'a'");
    let node = state.node(id).expect("Failed to load 'a'");
    assert!(node.is_directory());
    assert!(!node.is_staged_delete());
    assert_ne!(id, file);
    assert!(state.node(file).unwrap().is_staged_delete());
}

#[test]
fn a_leaf_is_added_alongside_a_deleted_directory() {
    let mut state = State::new();
    let directory = stage_directory_from_facts(&mut state, hash_string, "a").unwrap();
    stage_delete_from_facts(&mut state, hash_string, "a").unwrap();
    let file = leaf(&mut state, "a", b"now a file");
    assert_ne!(file, directory);
    assert_eq!(find(&state, "a"), Ok(file));
    assert!(state.node(directory).unwrap().is_staged_delete());
}

#[test]
fn deleting_a_directory_hides_what_is_below_and_nothing_else() {
    let mut state = State::new();
    let below = leaf(&mut state, "a/b/c", b"below");
    let beside = leaf(&mut state, "d", b"beside");
    let directory = find(&state, "a").unwrap();
    assert_eq!(stage_delete_from_facts(&mut state, hash_string, "a"), Ok(Some(directory)));
    assert_eq!(find(&state, "a/b/c"), Ok(below));
    assert!(!is_live(&state, "a"));
    assert!(!is_live(&state, "a/b"));
    assert!(!is_live(&state, "a/b/c"));
    assert!(is_live(&state, "d"));
    assert_eq!(state.node(below).unwrap().size, 5);
    assert!(!state.node(beside).unwrap().is_staged_delete());
}

#[test]
fn a_directory_comes_back_without_what_was_in_it() {
    let mut state = State::new();
    leaf(&mut state, "a/f", b"inside");
    let directory = find(&state, "a").unwrap();
    stage_delete_from_facts(&mut state, hash_string, "a").unwrap();
    assert_eq!(stage_directory_from_facts(&mut state, hash_string, "a"), Ok(directory));
    assert!(is_live(&state, "a"));
    assert!(!is_live(&state, "a/f"));
}

#[test]
fn a_leaf_below_a_deleted_directory_brings_the_directory_back() {
    let mut state = State::new();
    let file = leaf(&mut state, "a/f", b"inside");
    stage_delete_from_facts(&mut state, hash_string, "a").unwrap();
    assert_eq!(leaf(&mut state, "a/f", b"again"), file);
    assert!(is_live(&state, "a"));
    assert!(is_live(&state, "a/f"));
}

#[test]
fn the_root_is_not_deleted() {
    let mut state = State::new();
    for path in ["", "/"] {
        assert_eq!(
            stage_delete_from_facts(&mut state, hash_string, path),
            Err(invalid("cannot delete the repository root"))
        );
    }
    assert!(!state.is_dirty());
}

#[test]
fn deleting_nothing_does_not_dirty_the_tree() {
    let mut state = State::new();
    assert_eq!(stage_delete_from_facts(&mut state, hash_string, "x"), Ok(None));
    assert!(!state.is_dirty());
}

#[test]
fn a_move_takes_a_directory_with_all_below_it() {
    let mut state = State::new();
    let inner = leaf(&mut state, "a/b/c", b"inner");
    let other = leaf(&mut state, "z", b"other");
    let directory = find(&state, "a").unwrap();
    assert_eq!(stage_move_from_facts(&mut state, hash_string, "a", "new/home"), Ok(directory));
    assert_eq!(find(&state, "new/home"), Ok(directory));
    assert_eq!(find(&state, "new/home/b/c"), Ok(inner));
    assert_eq!(find(&state, "z"), Ok(other));
    assert_eq!(find(&state, "a"), Err(StateError::NodeNotFound));
    assert_eq!(find(&state, "a/b/c"), Err(StateError::NodeNotFound));
    assert!(is_live(&state, "new/home/b/c"));
    assert_eq!(state.node(directory).unwrap().name_hash, hash_string("home"));
}

#[test]
fn a_move_over_a_directory_hides_all_of_it() {
    let mut state = State::new();
    let inside = leaf(&mut state, "dst/old", b"old");
    let file = leaf(&mut state, "src", b"src");
    assert_eq!(stage_move_from_facts(&mut state, hash_string, "src", "dst"), Ok(file));
    assert_eq!(find(&state, "dst"), Ok(file));
    assert!(state.node(inside).unwrap().is_staged_delete());
}

#[test]
fn a_move_there_and_back() {
    let mut state = State::new();
    let file = leaf(&mut state, "x", b"x");
    stage_move_from_facts(&mut state, hash_string, "x", "y").unwrap();
    assert_eq!(stage_move_from_facts(&mut state, hash_string, "y", "x"), Ok(file));
    assert_eq!(find(&state, "x"), Ok(file));
    assert!(is_live(&state, "x"));
    assert!(!is_live(&state, "y"));
}

#[test]
fn a_move_to_the_same_path_changes_nothing() {
    let mut state = State::new();
    let file = leaf(&mut state, "a/x", b"x");
    let before = state.node(file);
    assert_eq!(stage_move_from_facts(&mut state, hash_string, "a/x", "/a//x"), Ok(file));
    assert_eq!(state.node(file), before);
}

#[test]
fn a_move_of_nothing_live_is_not_found() {
    let mut state = State::new();
    leaf(&mut state, "gone", b"x");
    stage_delete_from_facts(&mut state, hash_string, "gone").unwrap();
    assert_eq!(
        stage_move_from_facts(&mut state, hash_string, "gone", "y"),
        Err(StateError::NodeNotFound)
    );
    assert_eq!(
        stage_move_from_facts(&mut state, hash_string, "never", "y"),
        Err(StateError::NodeNotFound)
    );
    assert_eq!(find(&state, "y"), Err(StateError::NodeNotFound));
}

#[test]
fn a_move_from_or_to_the_root_is_refused() {
    let mut state = State::new();
    leaf(&mut state, "x", b"x");
    for (from, to) in [("", "y"), ("x", "/"), ("/", "")] {
        assert_eq!(
            stage_move_from_facts(&mut state, hash_string, from, to),
            Err(invalid("cannot move the repository root"))
        );
    }
    assert!(is_live(&state, "x"));
}

#[test]
fn a_move_within_itself_is_refused() {
    let mut state = State::new();
    leaf(&mut state, "a/b/c", b"x");
    for (from, to) in [("a", "a/b/d"), ("a/b/c", "a/b"), ("a/b", "a")] {
        assert_eq!(
            stage_move_from_facts(&mut state, hash_string, from, to),
            Err(invalid("cannot move a node into itself or over a directory that holds it"))
        );
    }
    assert!(is_live(&state, "a/b/c"));
}

#[test]
fn a_move_below_a_file_is_refused_and_changes_nothing() {
    let mut state = State::new();
    let file = leaf(&mut state, "f", b"f");
    let source = leaf(&mut state, "s", b"s");
    assert_eq!(
        stage_move_from_facts(&mut state, hash_string, "s", "f/deep/x"),
        Err(StateError::Internal(InvalidArguments {
            reason: "cannot stage 'f' as a directory: an existing node there is not a directory"
                .to_string(),
        }))
    );
    assert_eq!(find(&state, "s"), Ok(source));
    assert_eq!(find(&state, "f"), Ok(file));
    assert_eq!(state.node(3), None);
}

#[test]
fn a_freed_name_can_be_used_again() {
    let mut state = State::new();
    let moved = leaf(&mut state, "x", b"x");
    stage_move_from_facts(&mut state, hash_string, "x", "y").unwrap();
    let fresh = leaf(&mut state, "x", b"fresh");
    assert_ne!(fresh, moved);
    assert_eq!(find(&state, "x"), Ok(fresh));
    assert_eq!(find(&state, "y"), Ok(moved));
}
