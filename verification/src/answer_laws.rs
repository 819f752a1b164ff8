//! What the answers to the calls say, and what the inputs of a call mean.

use vstd::prelude::*;
use crate::errors::{Refusal, StateError};
use crate::node::{Node, NodeFlags, NodeID, ROOT_NODE};
use crate::relocate::MoveRefusal;
use crate::tree::Tree;
use crate::walk::{Component, Event, Phase, Plan, Target, Walk};

verus! {

/// The hashes of names are what the hash function gives for them, for every
/// name and in the same order.
pub proof fn law_every_name_is_hashed<H: Fn(&str) -> u64>(
    hash_string: H,
    names: Seq<Seq<char>>,
    hashes: Seq<u64>,
    i: int,
)
    requires
        crate::direct_write::hashed(hash_string, names, hashes),
        0 <= i < names.len(),
    ensures
        hashes.len() == names.len(),
        exists|text: &str| text@ == names[i] && #[trigger]
            call_ensures(hash_string, (text,), hashes[i]),
{
    assert(crate::direct_write::hashes_to(hash_string, names[i], hashes[i]));
}

/// Components are read one for one: there are as many names and as many name
/// hashes as components, and each is that component's own.
pub proof fn law_components_are_read_one_for_one(components: Seq<Component>, i: int)
    requires
        0 <= i < components.len(),
    ensures
        crate::walk::names(components).len() == components.len(),
        crate::walk::hashes(components).len() == components.len(),
        crate::walk::names(components)[i] == components[i].name@,
        crate::walk::hashes(components)[i] == components[i].name_hash,
{
}

/// Strings are read one for one, as the characters that they are made of.
pub proof fn law_texts_are_read_one_for_one(names: Seq<String>, i: int)
    requires
        0 <= i < names.len(),
    ensures
        crate::path::texts(names).len() == names.len(),
        crate::path::texts(names)[i] == names[i]@,
{
}

/// A walk is for all its components and for the target it was given, and goes
/// on with an answer to what it waits for as long as a component is left.
pub proof fn law_walk_is_for_its_components<E>(walk: Walk, event: Event<E>)
    ensures
        walk.plan().hashes == crate::walk::hashes(walk.components@),
        walk.plan().target == walk.target,
        walk.awaits(event) <==> walk.cursor.index < walk.components@.len() && match event {
            Event::Found(_) => walk.cursor.phase is Finding,
            Event::NotFound => walk.cursor.phase is Finding,
            Event::Loaded(_) => walk.cursor.phase is Loading,
            Event::Rewritten { .. } => walk.cursor.phase is Rewriting,
            Event::Noted => walk.cursor.phase is Noting,
            Event::Added(_) => walk.cursor.phase is Adding,
            Event::Marked => walk.cursor.phase is Marking,
            Event::Failed(_) => walk.cursor.phase != Phase::Finished,
        },
{
}

/// The default record is that of an empty directory with nothing staged on it.
pub proof fn law_default_record_is_empty()
    ensures
        Node::blank().flags == (NodeFlags {
            file: false,
            link: false,
            staged: false,
            staged_add: false,
            staged_modify: false,
            staged_delete: false,
            staged_move: false,
        }),
        NodeFlags::none() == Node::blank().flags,
        Node::blank().mode == 0,
        Node::blank().name_hash == 0,
        Node::blank().size == 0,
        Node::blank().address.hash.high == 0,
        Node::blank().address.hash.low == 0,
        Node::blank().address.context.id == 0,
        Node::blank().reserved == 0,
{
}

/// What a staging call answers. Success names the node at the end of the path,
/// which is live and of the kind that was asked for. An invalid argument is
/// reported exactly where the root is to be a leaf. An internal error is
/// reported exactly where a live node of another kind is in the way, and
/// names the component that leads to it. An error means that nothing has
/// changed.
#[verifier::rlimit(60)]
pub proof fn law_staging_answer(
    before: Tree,
    after: Tree,
    result: Result<NodeID, StateError>,
    names: Seq<Seq<char>>,
    plan: Plan,
)
    requires
        before.wf(),
        after.wf(),
        names.len() == plan.hashes.len(),
        names.len() <= usize::MAX,
        crate::direct_write::staged_as(before, after, result, names, plan),
    ensures
        ({
            let leaf = plan.target is Leaf;
            let blocked = |at: int|
                before.resolve(plan.hashes.take(at + 1)) matches Some(id)
                    && !before.entries[id as int].node.flags.staged_delete && (
                before.entries[id as int].node.flags.link
                    || before.entries[id as int].node.flags.file != (leaf && at
                    == plan.hashes.len() - 1));
            &&& result matches Ok(id) ==> {
                &&& after.resolve(plan.hashes) == Some(id)
                &&& !after.entries[id as int].node.flags.link
                &&& !after.entries[id as int].node.flags.staged_delete
                &&& after.entries[id as int].node.flags.file == leaf
            }
            &&& result is Err ==> after == before
            &&& leaf && plan.hashes.len() == 0 <==> (result matches Err(
                StateError::InvalidArguments(error),
            ) && error.reason@ == "cannot stage the repository root as a leaf"@)
            &&& (exists|at: int|
                #![trigger plan.hashes.take(at + 1)]
                0 <= at < plan.hashes.len() && blocked(at)) <==> result is Err
                && result->Err_0 is Internal
            &&& result matches Err(StateError::Internal(error)) ==> (exists|at: int|
                #![trigger plan.hashes.take(at + 1)]
                0 <= at < plan.hashes.len() && blocked(at) && error.reason@ == if leaf && at
                    == plan.hashes.len() - 1 {
                    "cannot stage '"@ + names[at]
                        + "' as a file: an existing node there is not a file"@
                } else {
                    "cannot stage '"@ + names[at]
                        + "' as a directory: an existing node there is not a directory"@
                })
            &&& !(leaf && plan.hashes.len() == 0) && result is Err ==> result->Err_0 is Internal
        }),
{
    let outcome = before.staged(names, plan);
    let leaf = plan.target is Leaf;
    if let Ok(id) = outcome.result {
        before.lemma_stage_from(ROOT_NODE, names, plan, 0);
    } else {
        crate::laws::law_refusal_changes_nothing(before, names, plan);
    }
    if plan.hashes.len() > 0 || !leaf {
        if outcome.result is Err {
            let at = before.lemma_refused(ROOT_NODE, names, plan, 0);
            crate::staging_laws::law_refusal_says_what_is_in_the_way(before, names, plan, at);
            crate::laws::law_refused_exactly_when_blocked(before, names, plan);
            assert(plan.hashes.take(at + 1).len() == at + 1);
        }
        assert forall|at: int|
            #![trigger plan.hashes.take(at + 1)]
            0 <= at < plan.hashes.len() && (before.resolve(plan.hashes.take(at + 1)) matches Some(
                id,
            ) && !before.entries[id as int].node.flags.staged_delete && (
            before.entries[id as int].node.flags.link || before.entries[id as int].node.flags.file
                != (leaf && at == plan.hashes.len() - 1))) implies outcome.result is Err by {
            crate::staging_laws::law_refusal_says_what_is_in_the_way(before, names, plan, at);
        }
    }
}

/// What a delete answers: the id of the live node that the path led to, which
/// the path still leads to, now staged for deletion; or nothing, where it led
/// to nothing live, and then nothing has changed. The root is an invalid
/// argument.
pub proof fn law_delete_answer(
    before: Tree,
    after: Tree,
    result: Result<Option<NodeID>, StateError>,
    hashes: Seq<u64>,
)
    requires
        before.wf(),
        crate::direct_write::deleted_as(before, after, result, hashes),
    ensures
        after.wf(),
        hashes.len() == 0 <==> (result matches Err(StateError::InvalidArguments(error))
            && error.reason@ == "cannot delete the repository root"@),
        result is Err ==> hashes.len() == 0,
        hashes.len() > 0 ==> {
            let live = before.resolve(hashes) matches Some(id)
                && !before.entries[id as int].node.flags.staged_delete;
            &&& live <==> result is Ok && result->Ok_0 is Some
            &&& result matches Ok(Some(id)) ==> {
                &&& before.resolve(hashes) == Some(id)
                &&& after.resolve(hashes) == Some(id)
                &&& after.entries[id as int].node.flags.staged_delete
            }
        },
        !(result is Ok && result->Ok_0 is Some) ==> after == before,
{
    if hashes.len() > 0 && before.resolve(hashes) is Some && before.live(
        before.resolve(hashes)->0,
    ) {
        crate::laws::law_delete_hides(before, hashes);
        assert(after.resolve(hashes) == before.resolve(hashes));
    }
}

/// What a move answers. Success names the live node that the old path led to,
/// which the new path leads to now. The root at either end, and a path that
/// lies within the other, are invalid arguments. Where nothing live is to be
/// moved, nothing is found. Where something live that is no directory is on
/// the way to the new place, that is an internal error, which names the
/// component. An error means that nothing has changed.
#[verifier::rlimit(60)]
pub proof fn law_move_answer(
    before: Tree,
    after: Tree,
    result: Result<NodeID, StateError>,
    from: Seq<u64>,
    names: Seq<Seq<char>>,
    to: Seq<u64>,
)
    requires
        before.wf(),
        after.wf(),
        names.len() == to.len(),
        to.len() <= usize::MAX,
        crate::direct_write::moved_as(before, after, result, from, names, to),
    ensures
        ({
            let root = from.len() == 0 || to.len() == 0;
            let live = before.resolve(from) matches Some(id)
                && !before.entries[id as int].node.flags.staged_delete;
            let nested = from != to && (from.is_prefix_of(to) || to.is_prefix_of(from));
            let blocked = |at: int|
                before.resolve(to.take(at + 1)) matches Some(id)
                    && !before.entries[id as int].node.flags.staged_delete && (
                before.entries[id as int].node.flags.link
                    || before.entries[id as int].node.flags.file);
            &&& result matches Ok(id) ==> before.resolve(from) == Some(id) && after.resolve(to)
                == Some(id) && live && !root && !nested
            &&& result is Err ==> after == before
            &&& from == to ==> after == before
            &&& root <==> (result matches Err(StateError::InvalidArguments(error))
                && error.reason@ == "cannot move the repository root"@ && root)
            &&& !root && !live <==> !root && result == Err::<NodeID, StateError>(
                StateError::NodeNotFound,
            )
            &&& !root && live && nested <==> !root && (result matches Err(
                StateError::InvalidArguments(error),
            ) && error.reason@
                == "cannot move a node into itself or over a directory that holds it"@)
            &&& !root && live && from == to ==> result is Ok
            &&& !root && live && !nested && from != to ==> (if (exists|at: int|
                #![trigger to.take(at + 1)]
                0 <= at < to.len() - 1 && blocked(at)) {
                result matches Err(StateError::Internal(error)) && (exists|at: int|
                    #![trigger to.take(at + 1)]
                    0 <= at < to.len() - 1 && blocked(at) && error.reason@ == "cannot stage '"@
                        + names[at]
                        + "' as a directory: an existing node there is not a directory"@)
            } else {
                result is Ok
            })
        }),
{
    let outcome = before.relocated(from, names, to);
    if outcome.result is Err || from == to {
        crate::laws::law_refused_move_changes_nothing(before, from, names, to);
    } else {
        crate::laws::law_move_keeps_identity(before, from, names, to, outcome.result->Ok_0);
    }
    if from.len() > 0 && to.len() > 0 {
        before.lemma_resolved_node(from);
        way_blocked(before, names, to);
    }
}

/// When the way to a new place is blocked, and how that is reported.
proof fn way_blocked(tree: Tree, names: Seq<Seq<char>>, to: Seq<u64>)
    requires
        tree.wf(),
        names.len() == to.len(),
        0 < to.len() <= usize::MAX,
    ensures
        ({
            let plan = Plan { hashes: to.drop_last(), target: Target::Directory };
            let staged = tree.staged(names.drop_last(), plan);
            let blocked = |at: int|
                tree.resolve(to.take(at + 1)) matches Some(id)
                    && !tree.entries[id as int].node.flags.staged_delete && (
                tree.entries[id as int].node.flags.link || tree.entries[id as int].node.flags.file);
            staged.tree.entries.len() <= u64::MAX ==> if exists|at: int|
                #![trigger to.take(at + 1)]
                0 <= at < to.len() - 1 && blocked(at) {
                staged.result matches Err(Refusal::NotADirectory { component }) && component
                    < to.len() - 1 && blocked(component as int)
            } else {
                staged.result is Ok
            }
        }),
{
    let plan = Plan { hashes: to.drop_last(), target: Target::Directory };
    let staged = tree.staged(names.drop_last(), plan);
    if staged.tree.entries.len() <= u64::MAX {
        assert forall|at: int|
            #![trigger to.take(at + 1)]
            0 <= at < to.len() - 1 && (tree.resolve(to.take(at + 1)) matches Some(id)
                && !tree.entries[id as int].node.flags.staged_delete && (
            tree.entries[id as int].node.flags.link
                || tree.entries[id as int].node.flags.file)) implies staged.result == Err::<
            NodeID,
            Refusal,
        >(Refusal::NotADirectory { component: at as usize }) by {
            assert(plan.hashes.take(at + 1) =~= to.take(at + 1));
            crate::staging_laws::law_refusal_says_what_is_in_the_way(
                tree,
                names.drop_last(),
                plan,
                at,
            );
        }
        if staged.result is Err {
            let at = tree.lemma_refused(ROOT_NODE, names.drop_last(), plan, 0);
            assert(plan.hashes.take(at + 1) =~= to.take(at + 1));
            crate::laws::law_refused_exactly_when_blocked(tree, names.drop_last(), plan);
        }
    }
}

/// By paths: staging changes nothing about what is at a path that is no part
/// of the staged one.
pub proof fn law_staging_goes_by_path(
    tree: Tree,
    names: Seq<Seq<char>>,
    plan: Plan,
    path: Seq<u64>,
    i: NodeID,
)
    requires
        tree.wf(),
        tree.staged(names, plan).tree.entries.len() <= u64::MAX,
        tree.resolve(path) == Some(i),
        !path.is_prefix_of(plan.hashes),
    ensures
        tree.staged(names, plan).tree.entries[i as int] == tree.entries[i as int],
{
    let after = tree.staged(names, plan).tree;
    tree.lemma_resolved_node(path);
    match tree.staged(names, plan).result {
        Ok(id) => {
            crate::laws::law_staging_keeps_tree_sound(tree, names, plan);
            assert forall|k: int|
                #![trigger plan.hashes.take(k)]
                0 <= k <= plan.hashes.len() implies after.resolve(plan.hashes.take(k)) != Some(
                i,
            ) by {
                if after.resolve(plan.hashes.take(k)) == Some(i) {
                    if k == 0 {
                        assert(plan.hashes.take(0) =~= Seq::empty());
                    } else {
                        tree.lemma_stands_at(ROOT_NODE, names, plan, 0, k - 1);
                    }
                    crate::laws::law_one_path_per_node(tree, path, plan.hashes.take(k));
                }
            }
            crate::staging_laws::law_staging_changes_only_its_path(tree, names, plan, id, i);
        },
        Err(_) => {
            crate::laws::law_refusal_changes_nothing(tree, names, plan);
        },
    }
}

/// By paths: a move changes nothing about the record of what is at a path
/// that is no part of the old or the new one and does not continue the new
/// one.
pub proof fn law_move_goes_by_path(
    tree: Tree,
    from: Seq<u64>,
    names: Seq<Seq<char>>,
    to: Seq<u64>,
    id: NodeID,
    path: Seq<u64>,
    i: NodeID,
)
    requires
        tree.wf(),
        tree.relocated(from, names, to).tree.entries.len() <= u64::MAX,
        tree.relocated(from, names, to).result == Ok::<NodeID, MoveRefusal>(id),
        from != to,
        tree.resolve(path) == Some(i),
        !path.is_prefix_of(from),
        !path.is_prefix_of(to),
        !to.is_prefix_of(path),
    ensures
        tree.relocated(from, names, to).tree.entries[i as int] == tree.entries[i as int],
{
    let after = tree.relocated(from, names, to).tree;
    tree.lemma_resolved_node(path);
    crate::relocate_laws::law_move_leaves_the_rest_alone(tree, from, names, to, id, i);
    assert forall|k: int|
        #![trigger from.take(k)]
        0 <= k <= from.len() implies tree.resolve(from.take(k)) != Some(i) by {
        if tree.resolve(from.take(k)) == Some(i) {
            crate::laws::law_one_path_per_node(tree, path, from.take(k));
        }
    }
    assert forall|k: int|
        #![trigger to.take(k)]
        0 <= k < to.len() implies after.resolve(to.take(k)) != Some(i) by {
        if after.resolve(to.take(k)) == Some(i) {
            if k == 0 {
                assert(to.take(0) =~= Seq::empty());
            } else {
                crate::relocate_laws::lemma_way_was_there(tree, from, names, to, id, k - 1, i);
            }
            crate::laws::law_one_path_per_node(tree, path, to.take(k));
        }
    }
    if let Some(there) = tree.resolve(to) {
        if tree.within(i, there) {
            tree.lemma_prefix(path, to);
        }
    }
}

} // verus!
