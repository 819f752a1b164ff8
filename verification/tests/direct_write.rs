//! Staging of leaves and directories on a tree in memory.

use lore_revision::direct_write::{
    find_node_link, fresh_node, stage_directory_from_facts, stage_leaf_from_facts, update_leaf,
    LeafContent,
};
use lore_revision::errors::{InvalidArguments, StateError};
use lore_revision::node::{Address, Context, Node, ROOT_NODE, TRUSTED_CONTENT_MARKER};
use lore_revision::state::State;

fn hash_string(name: &str) -> u64 {
    let mut hash: u64 = 0xcbf29ce484222325;
    for byte in name.bytes() {
        hash = (hash ^ byte as u64).wrapping_mul(0x100000001b3);
    }
    hash
}

/// Content facts as a store would report them for these bytes.
fn write_leaf(bytes: &[u8], context: u128) -> LeafContent {
    let mut digest: u128 = 1;
    for byte in bytes {
        digest = digest.wrapping_mul(257).wrapping_add(*byte as u128);
    }
    LeafContent {
        address: Address {
            hash: lore_revision::node::Hash { high: digest, low: bytes.len() as u128 },
            context: Context { id: context },
        },
        size: bytes.len() as u64,
        mode: 0,
    }
}

fn internal(reason: &str) -> StateError {
    StateError::Internal(InvalidArguments { reason: reason.to_string() })
}

#[test]
fn stage_leaf_from_facts_builds_path() {
    let content = write_leaf(b"first content", 11);
    let mut state = State::new();
    let leaf = stage_leaf_from_facts(&mut state, hash_string, "a/b/c.txt", content)
        .expect("Failed to stage a/b/c.txt from facts");

    let found = find_node_link(&state, hash_string, "a/b/c.txt").expect("Failed to find a/b/c.txt");
    assert_eq!(found, leaf);
    let leaf_node = state.node(found).expect("Failed to load leaf node");
    assert_eq!(leaf_node.address, content.address);
    assert_eq!(leaf_node.size, content.size);
    assert!(leaf_node.is_file());
    let dir_a = find_node_link(&state, hash_string, "a").expect("Failed to find 'a'");
    assert!(state.node(dir_a).expect("Failed to load 'a'").is_directory());

    let content2 = write_leaf(b"second, different content", 12);
    let leaf2 = stage_leaf_from_facts(&mut state, hash_string, "a/b/c.txt", content2)
        .expect("Failed to re-stage a/b/c.txt from facts");
    assert_eq!(leaf2, leaf, "overwriting the same path reuses the same node");
    let found2 = find_node_link(&state, hash_string, "a/b/c.txt")
        .expect("Failed to find a/b/c.txt (second write)");
    let leaf_node2 = state.node(found2).expect("Failed to load leaf node (second write)");
    assert_eq!(leaf_node2.address, content2.address);
    assert_eq!(leaf_node2.size, content2.size);
    assert_ne!(
        leaf_node2.address, content.address,
        "the second write's address must replace, not merge with, the first"
    );
}

#[test]
fn stage_leaf_from_facts_rejects_type_mismatch() {
    let content = write_leaf(b"leaf at 'a'", 1);
    let mut state = State::new();
    stage_leaf_from_facts(&mut state, hash_string, "a", content)
        .expect("Failed to stage 'a' as a file");

    let content2 = write_leaf(b"leaf at 'a/b.txt'", 2);
    let result = stage_leaf_from_facts(&mut state, hash_string, "a/b.txt", content2);
    assert!(
        result.is_err(),
        "staging through an existing file must fail, not silently corrupt the tree"
    );
    assert_eq!(
        result,
        Err(internal(
            "cannot stage 'a' as a directory: an existing node there is not a directory"
        ))
    );
}

#[test]
fn a_refused_path_leaves_the_tree_as_it_was() {
    let mut state = State::new();
    let content = write_leaf(b"x", 1);
    stage_leaf_from_facts(&mut state, hash_string, "a/b", content).unwrap();
    let before: Vec<Option<Node>> = vec![state.node(0), state.node(1), state.node(2)];
    let refused = stage_leaf_from_facts(&mut state, hash_string, "a/b/c/d", content);
    assert_eq!(
        refused,
        Err(internal(
            "cannot stage 'b' as a directory: an existing node there is not a directory"
        ))
    );
    let after: Vec<Option<Node>> = vec![state.node(0), state.node(1), state.node(2)];
    assert_eq!(before, after);
    assert_eq!(state.node(3), None);
    assert_eq!(
        find_node_link(&state, hash_string, "a/b/c"),
        Err(StateError::NodeNotFound)
    );
}

#[test]
fn a_directory_is_not_staged_as_a_file() {
    let mut state = State::new();
    stage_directory_from_facts(&mut state, hash_string, "dir").unwrap();
    let refused = stage_leaf_from_facts(&mut state, hash_string, "dir", write_leaf(b"x", 1));
    assert_eq!(
        refused,
        Err(internal("cannot stage 'dir' as a file: an existing node there is not a file"))
    );
}

#[test]
fn a_file_is_not_staged_as_a_directory() {
    let mut state = State::new();
    stage_leaf_from_facts(&mut state, hash_string, "f", write_leaf(b"x", 1)).unwrap();
    assert_eq!(
        stage_directory_from_facts(&mut state, hash_string, "f"),
        Err(internal("cannot stage 'f' as a directory: an existing node there is not a directory"))
    );
}

#[test]
fn the_root_is_no_leaf() {
    for path in ["", "/", "//"] {
        let mut state = State::new();
        let refused = stage_leaf_from_facts(&mut state, hash_string, path, write_leaf(b"x", 1));
        assert_eq!(
            refused,
            Err(StateError::InvalidArguments(InvalidArguments {
                reason: "cannot stage the repository root as a leaf".to_string(),
            }))
        );
        assert!(!state.is_dirty());
        assert_eq!(state.node(1), None);
    }
}

#[test]
fn the_root_is_a_directory() {
    let mut state = State::new();
    assert_eq!(stage_directory_from_facts(&mut state, hash_string, "/"), Ok(ROOT_NODE));
    assert!(!state.is_dirty());
}

#[test]
fn a_new_leaf_is_staged_as_added_below_staged_directories() {
    let mut state = State::new();
    let content = LeafContent { mode: 0o755, ..write_leaf(b"run", 5) };
    let leaf = stage_leaf_from_facts(&mut state, hash_string, "bin/run", content).unwrap();
    assert_eq!(leaf, 2);
    let node = state.node(leaf).unwrap();
    assert!(node.is_file() && !node.is_directory() && !node.is_staged_delete());
    assert_eq!(node.mode, 0o755);
    assert_eq!(node.name_hash, hash_string("run"));
    assert_eq!(node.reserved, TRUSTED_CONTENT_MARKER);
    assert!(node.flags.staged && node.flags.staged_add && !node.flags.staged_modify);
    let directory = state.node(1).unwrap();
    assert_eq!(
        directory,
        Node { name_hash: hash_string("bin"), flags: directory.flags, ..Node::default() }
    );
    assert!(directory.flags.staged && !directory.flags.staged_add);
    assert_eq!(directory.reserved, 0);
    assert!(state.node(ROOT_NODE).unwrap().flags.staged);
    assert!(state.is_dirty());
}

#[test]
fn an_existing_leaf_is_staged_as_modified() {
    let mut state = State::new();
    stage_leaf_from_facts(&mut state, hash_string, "a/f", write_leaf(b"1", 5)).unwrap();
    let leaf = stage_leaf_from_facts(&mut state, hash_string, "a/f", write_leaf(b"22", 6)).unwrap();
    assert_eq!(leaf, 2);
    let node = state.node(leaf).unwrap();
    assert!(node.flags.staged_add && node.flags.staged_modify);
    assert_eq!(node.size, 2);
    assert_eq!(state.node(3), None);
}

#[test]
fn a_write_without_identity_keeps_the_old_one() {
    let mut state = State::new();
    stage_leaf_from_facts(&mut state, hash_string, "f", write_leaf(b"1", 77)).unwrap();
    let second = write_leaf(b"22", 0);
    let leaf = stage_leaf_from_facts(&mut state, hash_string, "f", second).unwrap();
    let node = state.node(leaf).unwrap();
    assert_eq!(node.address.hash, second.address.hash);
    assert_eq!(node.address.context, Context { id: 77 });
}

#[test]
fn a_new_leaf_may_have_no_identity() {
    let mut state = State::new();
    let leaf = stage_leaf_from_facts(&mut state, hash_string, "f", write_leaf(b"1", 0)).unwrap();
    assert!(state.node(leaf).unwrap().address.context.is_zero());
}

#[test]
fn siblings_and_other_paths_stand() {
    let mut state = State::new();
    let one = write_leaf(b"one", 1);
    let two = write_leaf(b"two!", 2);
    let first = stage_leaf_from_facts(&mut state, hash_string, "a/one", one).unwrap();
    let second = stage_leaf_from_facts(&mut state, hash_string, "a/two", two).unwrap();
    assert_ne!(first, second);
    assert_eq!(find_node_link(&state, hash_string, "a/one"), Ok(first));
    assert_eq!(state.node(first).unwrap().address, one.address);
    assert_eq!(state.node(second).unwrap().size, 4);
}

#[test]
fn staging_a_directory_again_changes_nothing() {
    let mut state = State::new();
    let id = stage_directory_from_facts(&mut state, hash_string, "a/b").unwrap();
    let before = state.node(id);
    assert_eq!(stage_directory_from_facts(&mut state, hash_string, "a/b"), Ok(id));
    assert_eq!(state.node(id), before);
    assert_eq!(state.node(3), None);
}

#[test]
fn the_way_to_a_leaf_is_made_of_live_directories() {
    let mut state = State::new();
    stage_leaf_from_facts(&mut state, hash_string, "a/b/c/f", write_leaf(b"x", 1)).unwrap();
    for path in ["a", "a/b", "a/b/c"] {
        let id = find_node_link(&state, hash_string, path).unwrap();
        let node = state.node(id).unwrap();
        assert!(node.is_directory() && !node.is_staged_delete());
    }
}

#[test]
fn every_path_leads_to_a_node_of_its_own() {
    let mut state = State::new();
    for path in ["a/x", "a/y", "b/x", "x"] {
        stage_leaf_from_facts(&mut state, hash_string, path, write_leaf(b"x", 1)).unwrap();
    }
    let mut ids = Vec::new();
    for path in ["", "a", "a/x", "a/y", "b", "b/x", "x"] {
        ids.push(find_node_link(&state, hash_string, path).unwrap());
    }
    ids.sort();
    assert_eq!(ids, vec![0, 1, 2, 3, 4, 5, 6]);
    assert_eq!(state.node(7), None);
}

#[test]
fn update_leaf_replaces_the_content_facts() {
    let mut node = fresh_node(9, Some(write_leaf(b"old", 3)));
    node.reserved = 0;
    node.flags.staged_move = true;
    let content = LeafContent { mode: 0o644, ..write_leaf(b"newer", 0) };
    update_leaf(&mut node, content);
    assert_eq!(
        node,
        Node {
            flags: node.flags,
            mode: 0o644,
            name_hash: 9,
            size: 5,
            address: Address { hash: content.address.hash, context: Context { id: 3 } },
            reserved: TRUSTED_CONTENT_MARKER,
        }
    );
    assert!(node.flags.file && node.flags.staged_move);
}

#[test]
fn rewriting_a_leaf_twice_is_rewriting_it_once() {
    let mut once = fresh_node(9, Some(write_leaf(b"old", 3)));
    let content = write_leaf(b"new", 4);
    update_leaf(&mut once, content);
    let mut twice = once;
    update_leaf(&mut twice, content);
    assert_eq!(once, twice);
}

#[test]
fn fresh_records() {
    assert_eq!(fresh_node(4, None), Node { name_hash: 4, ..Node::default() });
    let content = write_leaf(b"abc", 1);
    let leaf = fresh_node(4, Some(content));
    assert!(leaf.is_file());
    assert_eq!(leaf.size, 3);
    assert_eq!(leaf.address, content.address);
    assert_eq!(leaf.reserved, TRUSTED_CONTENT_MARKER);
    assert!(!leaf.flags.staged);
}

#[test]
fn names_are_looked_up_by_their_hash() {
    let same = |_name: &str| 1u64;
    let mut state = State::new();
    let one = stage_leaf_from_facts(&mut state, same, "x", write_leaf(b"1", 1)).unwrap();
    assert_eq!(stage_leaf_from_facts(&mut state, same, "y", write_leaf(b"2", 2)), Ok(one));
    assert_eq!(state.find_subnode(ROOT_NODE, 1), Some(one));
    assert_eq!(state.find_subnode(ROOT_NODE, 2), None);
}
