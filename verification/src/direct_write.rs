//! Staging of one path from facts: every ancestor is a directory, made if it
//! is missing, and the last component is what the caller says it is.

use vstd::prelude::*;
use crate::errors::StateError;
use crate::node::{Address, Context, Node, NodeFlags, NodeID, ROOT_NODE, TRUSTED_CONTENT_MARKER};
use crate::path::split_path;
use crate::state::State;
use crate::tree::Tree;
use crate::walk::{Component, Plan, Target};

verus! {

/// A leaf file's content facts. The caller knows them because it has already
/// written the bytes into the immutable store.
#[derive(Debug, Clone, Copy, PartialEq, Eq, Structural)]
pub struct LeafContent {
    pub address: Address,
    pub size: u64,
    pub mode: u16,
}

/// The record of a leaf that did not exist before.
pub open spec fn new_leaf(name_hash: u64, content: LeafContent) -> Node {
    Node {
        flags: NodeFlags { file: true, ..NodeFlags::none() },
        mode: content.mode,
        name_hash,
        size: content.size,
        address: content.address,
        reserved: TRUSTED_CONTENT_MARKER,
    }
}

/// The record of a directory that did not exist before.
pub open spec fn new_directory(name_hash: u64) -> Node {
    Node { name_hash, ..Node::blank() }
}

/// An existing leaf with its content replaced. The file keeps its identity
/// when the new address brings none.
pub open spec fn rewritten_leaf(node: Node, content: LeafContent) -> Node {
    Node {
        mode: content.mode,
        size: content.size,
        address: Address {
            hash: content.address.hash,
            context: if content.address.context.zero() {
                node.address.context
            } else {
                content.address.context
            },
        },
        reserved: TRUSTED_CONTENT_MARKER,
        ..node
    }
}

/// The record to add for a missing component: a file with `content`, or a
/// directory when there is none.
pub fn fresh_node(name_hash: u64, content: Option<LeafContent>) -> (node: Node)
    ensures
        node == match content {
            Some(content) => new_leaf(name_hash, content),
            None => new_directory(name_hash),
        },
        node.name_hash == name_hash,
        node.flags.file == content is Some,
        !node.flags.link,
        !node.flags.staged,
        !node.flags.staged_add,
        !node.flags.staged_modify,
        !node.flags.staged_delete,
        !node.flags.staged_move,
        content matches Some(content) ==> node.mode == content.mode && node.size == content.size
            && node.address == content.address && node.reserved == TRUSTED_CONTENT_MARKER,
        content is None ==> node.mode == 0 && node.size == 0 && node.address.hash.high == 0
            && node.address.hash.low == 0 && node.address.context.id == 0 && node.reserved == 0,
{
    match content {
        Some(content) => Node {
            flags: NodeFlags { file: true, ..NodeFlags::default() },
            mode: content.mode,
            name_hash,
            size: content.size,
            address: content.address,
            reserved: TRUSTED_CONTENT_MARKER,
        },
        None => Node { name_hash, ..Node::default() },
    }
}

/// Replaces the content facts of an existing leaf in place.
pub fn update_leaf(node: &mut Node, content: LeafContent)
    ensures
        *final(node) == rewritten_leaf(*old(node), content),
        final(node).flags == old(node).flags,
        final(node).name_hash == old(node).name_hash,
        crate::walk_laws::holds(*final(node), *old(node), content),
{
    let file_id: Context = node.address.context;
    node.mode = content.mode;
    node.size = content.size;
    node.address = content.address;
    if node.address.context.is_zero() {
        node.address.context = file_id;
    }
    node.reserved = TRUSTED_CONTENT_MARKER;
}

/// `name_hash` is what `hash_string` can return for `name`.
pub open spec fn hashes_to<H: Fn(&str) -> u64>(
    hash_string: H,
    name: Seq<char>,
    name_hash: u64,
) -> bool {
    exists|text: &str| text@ == name && #[trigger] call_ensures(hash_string, (text,), name_hash)
}

/// `hashes` are what `hash_string` can return for `names`, one for one.
pub open spec fn hashed<H: Fn(&str) -> u64>(
    hash_string: H,
    names: Seq<Seq<char>>,
    hashes: Seq<u64>,
) -> bool {
    &&& hashes.len() == names.len()
    &&& forall|i: int|
        0 <= i < names.len() ==> hashes_to(hash_string, names[i], #[trigger] hashes[i])
}

/// Splits `path` and hashes each of its names.
pub fn hash_path<H: Fn(&str) -> u64>(hash_string: &H, path: &str) -> (found: Vec<Component>)
    requires
        forall|name: &str| call_requires(*hash_string, (name,)),
    ensures
        crate::walk::names(found@) == crate::path::components(path@),
        hashed(*hash_string, crate::walk::names(found@), crate::walk::hashes(found@)),
{
    let names = split_path(path);
    let mut found: Vec<Component> = Vec::new();
    for name in it: names
        invariant
            it.seq() == names@,
            crate::walk::names(found@) == crate::path::texts(names@).take(it.index()),
            hashed(*hash_string, crate::walk::names(found@), crate::walk::hashes(found@)),
            forall|name: &str| call_requires(*hash_string, (name,)),
    {
        let ghost before = found@;
        let text = name.as_str();
        let name_hash: u64 = hash_string(text);
        assert(hashes_to(*hash_string, name@, name_hash));
        found.push(Component { name, name_hash });
        proof {
            assert(crate::walk::names(found@) =~= crate::walk::names(before).push(name@));
            assert(crate::walk::hashes(found@) =~= crate::walk::hashes(before).push(name_hash));
        }
    }
    found
}

/// Staging a path with these names turned `before` into `after` and was
/// answered with `result`.
pub open spec fn staged_as(
    before: Tree,
    after: Tree,
    result: Result<NodeID, StateError>,
    names: Seq<Seq<char>>,
    plan: Plan,
) -> bool {
    let outcome = before.staged(names, plan);
    after == outcome.tree && crate::errors::reports(result, outcome.result, names)
}

/// What a caller can rely on who staged a leaf at a path with these name
/// hashes.
///
/// Success: the path leads to the leaf, which holds the content, and of all
/// that was there only the leaf's own content has changed. Refusal: the path
/// is empty or something live is in the way, and nothing has changed.
pub open spec fn leaf_staged(
    before: Tree,
    after: Tree,
    result: Result<NodeID, StateError>,
    hashes: Seq<u64>,
    content: LeafContent,
) -> bool {
    let plan = Plan { hashes, target: Target::Leaf(content) };
    let refused = hashes.len() == 0 || exists|at: int| #[trigger]
        before.blocked_from(ROOT_NODE, plan, 0, at);
    match result {
        Ok(id) => {
            &&& !refused
            &&& after.resolve(hashes) == Some(id)
            &&& before.leaf_written(after, id, content)
            &&& before.kept_in(after)
            &&& before.content_kept_in(after, Some(id))
        },
        Err(_) => refused && after == before,
    }
}

/// What a caller can rely on who staged a directory at a path with these name
/// hashes.
///
/// Success: the path leads to the directory, and nothing that was there has
/// lost anything. Refusal: something live is in the way, and nothing has
/// changed.
pub open spec fn directory_staged(
    before: Tree,
    after: Tree,
    result: Result<NodeID, StateError>,
    hashes: Seq<u64>,
) -> bool {
    let plan = Plan { hashes, target: Target::Directory };
    let refused = exists|at: int| #[trigger] before.blocked_from(ROOT_NODE, plan, 0, at);
    match result {
        Ok(id) => {
            &&& !refused
            &&& after.resolve(hashes) == Some(id)
            &&& after.open_directory(id)
            &&& before.kept_in(after)
            &&& before.content_kept_in(after, None)
        },
        Err(_) => refused && after == before,
    }
}

/// Walks `path` from the root, makes the directories that are missing, and
/// makes or updates the leaf. Returns the leaf's id.
///
/// Every component but the last must be a directory and the last must be a
/// file, as far as live nodes stand there: one of another kind is refused.
/// What is staged for deletion is brought back where it has the right kind,
/// and passed over where it has not.
pub fn stage_leaf_from_facts<H: Fn(&str) -> u64>(
    state: &mut State,
    hash_string: H,
    path: &str,
    content: LeafContent,
) -> (result: Result<NodeID, StateError>)
    requires
        old(state)@.wf(),
        forall|name: &str| call_requires(hash_string, (name,)),
    ensures
        final(state)@.wf(),
        exists|hashes: Seq<u64>| #[trigger]
            hashed(hash_string, crate::path::components(path@), hashes) && staged_as(
                old(state)@,
                final(state)@,
                result,
                crate::path::components(path@),
                Plan { hashes, target: Target::Leaf(content) },
            ) && leaf_staged(old(state)@, final(state)@, result, hashes, content),
{
    let components = hash_path(&hash_string, path);
    let ghost before = state@;
    let ghost names = crate::walk::names(components@);
    let ghost hashes = crate::walk::hashes(components@);
    let result = state.stage(components, Target::Leaf(content));
    proof {
        let plan = Plan { hashes, target: Target::Leaf(content) };
        crate::laws::law_refused_exactly_when_blocked(before, names, plan);
        if result is Ok {
            crate::laws::law_leaf_reads_back(before, names, hashes, content);
            crate::laws::law_staging_keeps_the_rest(before, names, plan);
        } else {
            crate::laws::law_refusal_changes_nothing(before, names, plan);
        }
        assert(leaf_staged(before, state@, result, hashes, content));
    }
    result
}

/// Walks `path` from the root and makes the directories that are missing, the
/// last component among them. Returns the id of the last one, which for an
/// empty path is the root.
pub fn stage_directory_from_facts<H: Fn(&str) -> u64>(
    state: &mut State,
    hash_string: H,
    path: &str,
) -> (result: Result<NodeID, StateError>)
    requires
        old(state)@.wf(),
        forall|name: &str| call_requires(hash_string, (name,)),
    ensures
        final(state)@.wf(),
        exists|hashes: Seq<u64>| #[trigger]
            hashed(hash_string, crate::path::components(path@), hashes) && staged_as(
                old(state)@,
                final(state)@,
                result,
                crate::path::components(path@),
                Plan { hashes, target: Target::Directory },
            ) && directory_staged(old(state)@, final(state)@, result, hashes),
{
    let components = hash_path(&hash_string, path);
    let ghost before = state@;
    let ghost names = crate::walk::names(components@);
    let ghost hashes = crate::walk::hashes(components@);
    let result = state.stage(components, Target::Directory);
    proof {
        let plan = Plan { hashes, target: Target::Directory };
        crate::laws::law_refused_exactly_when_blocked(before, names, plan);
        if result is Ok {
            crate::laws::law_staged_directory_stands(before, names, hashes);
            crate::laws::law_staging_keeps_the_rest(before, names, plan);
        } else {
            crate::laws::law_refusal_changes_nothing(before, names, plan);
        }
        assert(directory_staged(before, state@, result, hashes));
    }
    result
}

/// Deleting the path with these name hashes turned `before` into `after` and
/// was answered with `result`. The root cannot be deleted.
pub open spec fn deleted_as(
    before: Tree,
    after: Tree,
    result: Result<Option<NodeID>, StateError>,
    hashes: Seq<u64>,
) -> bool {
    if hashes.len() == 0 {
        &&& after == before
        &&& result matches Err(StateError::InvalidArguments(error)) && error.reason@
            == crate::errors::delete_root_text()
    } else {
        let outcome = before.deleted(hashes);
        after == outcome.tree && result == Ok::<Option<NodeID>, StateError>(outcome.hidden)
    }
}

/// Hides what `path` leads to, with everything below it, and returns its id.
/// A path that leads to nothing live is left alone, and the answer is `None`.
pub fn stage_delete_from_facts<H: Fn(&str) -> u64>(
    state: &mut State,
    hash_string: H,
    path: &str,
) -> (result: Result<Option<NodeID>, StateError>)
    requires
        old(state)@.wf(),
        forall|name: &str| call_requires(hash_string, (name,)),
    ensures
        final(state)@.wf(),
        exists|hashes: Seq<u64>| #[trigger]
            hashed(hash_string, crate::path::components(path@), hashes) && deleted_as(
                old(state)@,
                final(state)@,
                result,
                hashes,
            ),
{
    let components = hash_path(&hash_string, path);
    let result = if components.len() == 0 {
        Err(StateError::invalid("cannot delete the repository root"))
    } else {
        Ok(state.delete(&components))
    };
    assert(deleted_as(old(state)@, state@, result, crate::walk::hashes(components@)));
    result
}

/// Moving from one path to another, with these names and name hashes, turned
/// `before` into `after` and was answered with `result`.
pub open spec fn moved_as(
    before: Tree,
    after: Tree,
    result: Result<NodeID, StateError>,
    from: Seq<u64>,
    names: Seq<Seq<char>>,
    to: Seq<u64>,
) -> bool {
    let outcome = before.relocated(from, names, to);
    after == outcome.tree && crate::errors::reports_move(result, outcome.result, names)
}

/// What a caller can rely on who moved a node between paths with these name
/// hashes.
///
/// Success: the live node that the old path led to is at the end of the new
/// path, live and with what it held, and the old path, if it is another one,
/// leads to nothing live. Refusal: nothing has changed.
pub open spec fn node_moved(
    before: Tree,
    after: Tree,
    result: Result<NodeID, StateError>,
    from: Seq<u64>,
    to: Seq<u64>,
) -> bool {
    match result {
        Ok(id) => {
            &&& before.resolve(from) == Some(id)
            &&& before.live(id)
            &&& after.resolve(to) == Some(id)
            &&& after.live(id)
            &&& crate::frame::same_content(before.node(id), after.node(id))
            &&& from != to ==> (after.resolve(from) matches Some(left) ==> left != id
                && !after.live(left))
        },
        Err(_) => after == before,
    }
}

/// Moves what `from` leads to, with everything below it, to `to`, and returns
/// its id, which it keeps. The directories on the way to `to` are made if
/// they are missing, and a live node that is there already is hidden.
pub fn stage_move_from_facts<H: Fn(&str) -> u64>(
    state: &mut State,
    hash_string: H,
    from: &str,
    to: &str,
) -> (result: Result<NodeID, StateError>)
    requires
        old(state)@.wf(),
        forall|name: &str| call_requires(hash_string, (name,)),
    ensures
        final(state)@.wf(),
        exists|from_hashes: Seq<u64>, to_hashes: Seq<u64>| #[trigger]
            hashed(hash_string, crate::path::components(from@), from_hashes) && #[trigger] hashed(
                hash_string,
                crate::path::components(to@),
                to_hashes,
            ) && moved_as(
                old(state)@,
                final(state)@,
                result,
                from_hashes,
                crate::path::components(to@),
                to_hashes,
            ) && node_moved(old(state)@, final(state)@, result, from_hashes, to_hashes),
{
    let source = hash_path(&hash_string, from);
    let place = hash_path(&hash_string, to);
    let ghost from_hashes = crate::walk::hashes(source@);
    let ghost to_hashes = crate::walk::hashes(place@);
    let ghost names = crate::walk::names(place@);
    let result = state.relocate(&source, place);
    proof {
        let before = old(state)@;
        if result is Err || from_hashes == to_hashes {
            crate::laws::law_refused_move_changes_nothing(before, from_hashes, names, to_hashes);
        } else {
            crate::laws::law_move_keeps_identity(
                before,
                from_hashes,
                names,
                to_hashes,
                result->Ok_0,
            );
        }
        assert(moved_as(before, state@, result, from_hashes, names, to_hashes));
        assert(node_moved(before, state@, result, from_hashes, to_hashes));
    }
    result
}

/// What `path` leads to, deleted or not.
pub fn find_node_link<H: Fn(&str) -> u64>(state: &State, hash_string: H, path: &str) -> (result:
    Result<NodeID, StateError>)
    requires
        state@.wf(),
        forall|name: &str| call_requires(hash_string, (name,)),
    ensures
        exists|hashes: Seq<u64>| #[trigger]
            hashed(hash_string, crate::path::components(path@), hashes) && result
                == match state@.resolve(hashes) {
                Some(id) => Ok::<NodeID, StateError>(id),
                None => Err(StateError::NodeNotFound),
            },
{
    let components = hash_path(&hash_string, path);
    match state.resolve(&components) {
        Some(id) => Ok(id),
        None => Err(StateError::NodeNotFound),
    }
}

} // verus!
