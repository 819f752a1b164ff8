//! What holds of staging, deleting and moving as a whole.

use vstd::prelude::*;
use crate::direct_write::LeafContent;
use crate::errors::Refusal;
use crate::node::{Node, NodeID, ROOT_NODE, StageMark};
use crate::relocate::MoveRefusal;
use crate::tree::{Outcome, Tree};
use crate::walk::{Action, Cursor, Edit, Event, Plan, Target, WalkError};

verus! {

/// Reading gives back what was written: once a leaf has been staged, its path
/// leads to it, and it is a live file that holds the content it was given and
/// vouches for it. It is staged as added if it is new and as modified if it
/// was there, everything above it is staged, and the tree is dirty.
pub proof fn law_leaf_reads_back(
    tree: Tree,
    names: Seq<Seq<char>>,
    hashes: Seq<u64>,
    content: LeafContent,
)
    requires
        tree.wf(),
        tree.staged(names, crate::staging::leaf_plan(hashes, content)).tree.entries.len()
            <= u64::MAX,
    ensures
        ({
            let outcome = tree.staged(names, crate::staging::leaf_plan(hashes, content));
            outcome.result matches Ok(id) ==> {
                &&& outcome.tree.resolve(hashes) == Some(id)
                &&& tree.leaf_written(outcome.tree, id, content)
            }
        }),
{
    let plan = crate::staging::leaf_plan(hashes, content);
    if hashes.len() > 0 {
        tree.lemma_stage_from(ROOT_NODE, names, plan, 0);
        tree.lemma_leaf_from(ROOT_NODE, names, hashes, content, 0);
    }
}

/// Every component before the leaf leads to a live directory afterwards.
pub proof fn law_way_to_leaf_is_directories(
    tree: Tree,
    names: Seq<Seq<char>>,
    hashes: Seq<u64>,
    content: LeafContent,
    count: int,
)
    requires
        tree.wf(),
        tree.staged(names, crate::staging::leaf_plan(hashes, content)).tree.entries.len()
            <= u64::MAX,
        tree.staged(names, crate::staging::leaf_plan(hashes, content)).result is Ok,
        0 <= count < hashes.len(),
    ensures
        tree.staged(names, crate::staging::leaf_plan(hashes, content)).tree.resolve(
            hashes.take(count),
        ) matches Some(id) && tree.staged(
            names,
            crate::staging::leaf_plan(hashes, content),
        ).tree.open_directory(id),
{
    law_leaf_reads_back(tree, names, hashes, content);
    law_staging_keeps_tree_sound(tree, names, crate::staging::leaf_plan(hashes, content));
    let after = tree.staged(names, crate::staging::leaf_plan(hashes, content)).tree;
    after.lemma_way_open(ROOT_NODE, hashes, 0, count);
}

/// Staging keeps the tree well formed, whatever comes of it.
pub proof fn law_staging_keeps_tree_sound(tree: Tree, names: Seq<Seq<char>>, plan: Plan)
    requires
        tree.wf(),
        tree.staged(names, plan).tree.entries.len() <= u64::MAX,
    ensures
        tree.staged(names, plan).tree.wf(),
{
    if plan.hashes.len() > 0 || plan.target is Directory {
        tree.lemma_stage_from(ROOT_NODE, names, plan, 0);
    }
}

/// Staging takes nothing out, hides nothing and changes no content but the
/// staged leaf's: every node keeps its id, place, name and kind, and stays
/// live, and the directories that were made hold nothing and vouch for
/// nothing.
pub proof fn law_staging_keeps_the_rest(tree: Tree, names: Seq<Seq<char>>, plan: Plan)
    requires
        tree.wf(),
        tree.staged(names, plan).tree.entries.len() <= u64::MAX,
    ensures
        ({
            let outcome = tree.staged(names, plan);
            &&& tree.kept_in(outcome.tree)
            &&& tree.content_kept_in(
                outcome.tree,
                match (outcome.result, plan.target) {
                    (Ok(id), Target::Leaf(_)) => Some(id),
                    _ => None,
                },
            )
        }),
{
    if plan.hashes.len() > 0 || plan.target is Directory {
        tree.lemma_stage_from(ROOT_NODE, names, plan, 0);
        if tree.staged(names, plan).result is Err {
            law_refusal_changes_nothing(tree, names, plan);
        }
    }
}

/// A live node that another path leads to is still there afterwards, with
/// what it held.
pub proof fn law_other_paths_stand(
    tree: Tree,
    names: Seq<Seq<char>>,
    plan: Plan,
    other: Seq<u64>,
)
    requires
        tree.wf(),
        tree.staged(names, plan).tree.entries.len() <= u64::MAX,
        other != plan.hashes,
        tree.resolve(other) is Some,
        tree.live(tree.resolve(other)->0),
    ensures
        ({
            let after = tree.staged(names, plan).tree;
            let id = tree.resolve(other)->0;
            &&& after.resolve(other) == Some(id)
            &&& after.live(id)
            &&& crate::frame::same_content(tree.node(id), after.node(id))
        }),
{
    let outcome = tree.staged(names, plan);
    let id = tree.resolve(other)->0;
    law_staging_keeps_tree_sound(tree, names, plan);
    law_staging_keeps_the_rest(tree, names, plan);
    tree.lemma_resolved_node(other);
    tree.lemma_kept_resolve(outcome.tree, ROOT_NODE, other, 0);
    if plan.target is Leaf && outcome.result == Ok::<NodeID, Refusal>(id) {
        law_leaf_reads_back(tree, names, plan.hashes, plan.target->0);
        law_one_path_per_node(outcome.tree, other, plan.hashes);
    }
}

/// No two paths lead to the same node.
pub proof fn law_one_path_per_node(tree: Tree, one: Seq<u64>, two: Seq<u64>)
    requires
        tree.wf(),
        tree.resolve(one) is Some,
        tree.resolve(one) == tree.resolve(two),
    ensures
        one == two,
{
    tree.lemma_within_self(tree.resolve(one)->0);
    tree.lemma_prefix(one, two);
    tree.lemma_prefix(two, one);
    assert(one =~= two);
}

/// A refused path leaves the tree exactly as it was.
pub proof fn law_refusal_changes_nothing(tree: Tree, names: Seq<Seq<char>>, plan: Plan)
    requires
        tree.wf(),
        tree.staged(names, plan).tree.entries.len() <= u64::MAX,
        tree.staged(names, plan).result is Err,
    ensures
        tree.staged(names, plan).tree == tree,
{
    if plan.hashes.len() > 0 || plan.target is Directory {
        let _ = tree.lemma_refused(ROOT_NODE, names, plan, 0);
    }
}

/// A path is refused exactly when it is the root and a leaf is wanted, or when
/// one of its components leads to a live node of another kind: for a leaf,
/// something that is no file at the end; elsewhere, something that is no
/// directory.
pub proof fn law_refused_exactly_when_blocked(tree: Tree, names: Seq<Seq<char>>, plan: Plan)
    requires
        tree.wf(),
        tree.staged(names, plan).tree.entries.len() <= u64::MAX,
    ensures
        tree.staged(names, plan).result is Err <==> (plan.hashes.len() == 0 && plan.target is Leaf)
            || exists|at: int| #[trigger] tree.blocked_from(ROOT_NODE, plan, 0, at),
        forall|at: int| #[trigger]
            tree.blocked_from(ROOT_NODE, plan, 0, at) ==> tree.staged(names, plan).result == Err::<
                NodeID,
                Refusal,
            >(crate::walk::refusal(plan.content(at), at as usize)),
{
    if tree.staged(names, plan).result is Err && (plan.hashes.len() > 0
        || plan.target is Directory) {
        let at = tree.lemma_refused(ROOT_NODE, names, plan, 0);
    }
    assert forall|at: int| #[trigger] tree.blocked_from(ROOT_NODE, plan, 0, at) implies tree.staged(
        names,
        plan,
    ).result == Err::<NodeID, Refusal>(
        crate::walk::refusal(plan.content(at), at as usize),
    ) by {
        tree.lemma_blocked(ROOT_NODE, names, plan, 0, at);
    }
}

/// Staging a leaf where a live file is uses that file's node: nothing is
/// added, the file gets the new content, and only staging marks change
/// besides.
pub proof fn law_existing_leaf_is_reused(
    tree: Tree,
    names: Seq<Seq<char>>,
    hashes: Seq<u64>,
    content: LeafContent,
)
    requires
        tree.wf(),
        hashes.len() > 0,
        tree.resolve(hashes) is Some,
        tree.live(tree.resolve(hashes)->0),
        tree.node(tree.resolve(hashes)->0).file(),
    ensures
        ({
            let id = tree.resolve(hashes)->0;
            tree.staged(names, crate::staging::leaf_plan(hashes, content)) == Outcome {
                tree: tree.edited(
                    id,
                    Edit { undelete: false, content: Some(content) },
                ).noted().marked(id, StageMark::StagedModify),
                result: Ok(id),
            }
        }),
{
    tree.lemma_restage_leaf(ROOT_NODE, names, hashes, content, 0);
}

/// A second write to a path goes to the same node and replaces what the first
/// one wrote. Only the file's identity stays, and only where the second
/// write brings none.
pub proof fn law_second_write_replaces_first(
    tree: Tree,
    names: Seq<Seq<char>>,
    hashes: Seq<u64>,
    first: LeafContent,
    second: LeafContent,
)
    requires
        tree.wf(),
        tree.staged(names, crate::staging::leaf_plan(hashes, first)).tree.entries.len()
            <= u64::MAX,
        tree.staged(names, crate::staging::leaf_plan(hashes, first)).result is Ok,
    ensures
        ({
            let one = tree.staged(names, crate::staging::leaf_plan(hashes, first));
            let two = one.tree.staged(names, crate::staging::leaf_plan(hashes, second));
            &&& two.result == one.result
            &&& two.tree.entries.len() == one.tree.entries.len()
            &&& one.result matches Ok(id) && one.tree.leaf_written(two.tree, id, second)
            &&& one.result matches Ok(id) && (!second.address.context.zero()
                ==> two.tree.node(id).address == second.address)
        }),
{
    let one = tree.staged(names, crate::staging::leaf_plan(hashes, first));
    law_leaf_reads_back(tree, names, hashes, first);
    law_staging_keeps_tree_sound(tree, names, crate::staging::leaf_plan(hashes, first));
    law_existing_leaf_is_reused(one.tree, names, hashes, second);
    law_leaf_reads_back(one.tree, names, hashes, second);
}

/// Staging a directory where a live directory is changes nothing.
pub proof fn law_existing_directory_is_reused(
    tree: Tree,
    names: Seq<Seq<char>>,
    hashes: Seq<u64>,
)
    requires
        tree.wf(),
        tree.resolve(hashes) is Some,
        tree.open_directory(tree.resolve(hashes)->0),
    ensures
        tree.staged(names, crate::staging::directory_plan(hashes)) == (Outcome {
            tree,
            result: Ok(tree.resolve(hashes)->0),
        }),
{
    tree.lemma_restage_directory(ROOT_NODE, names, hashes, 0);
}

/// A directory that has been staged is a live directory at the end of its
/// path, and staging it once more changes nothing.
pub proof fn law_staged_directory_stands(tree: Tree, names: Seq<Seq<char>>, hashes: Seq<u64>)
    requires
        tree.wf(),
        tree.staged(names, crate::staging::directory_plan(hashes)).tree.entries.len() <= u64::MAX,
        tree.staged(names, crate::staging::directory_plan(hashes)).result is Ok,
    ensures
        ({
            let outcome = tree.staged(names, crate::staging::directory_plan(hashes));
            &&& outcome.result matches Ok(id) && outcome.tree.resolve(hashes) == Some(id)
                && outcome.tree.open_directory(id)
            &&& outcome.tree.staged(names, crate::staging::directory_plan(hashes)) == outcome
        }),
{
    let plan = crate::staging::directory_plan(hashes);
    let outcome = tree.staged(names, plan);
    tree.lemma_stage_from(ROOT_NODE, names, plan, 0);
    law_existing_directory_is_reused(outcome.tree, names, hashes);
}

/// Deleting a live node hides it and everything below it and nothing else.
/// The node stays where it was: every path leads to what it led to before,
/// and nothing loses its content.
pub proof fn law_delete_hides(tree: Tree, hashes: Seq<u64>)
    requires
        tree.wf(),
        hashes.len() > 0,
        tree.resolve(hashes) is Some,
        tree.live(tree.resolve(hashes)->0),
    ensures
        ({
            let id = tree.resolve(hashes)->0;
            let outcome = tree.deleted(hashes);
            let after = outcome.tree;
            &&& outcome.hidden == Some(id)
            &&& after.wf()
            &&& after.dirty
            &&& after.entries.len() == tree.entries.len()
            &&& forall|other: Seq<u64>| #[trigger] after.resolve(other) == tree.resolve(other)
            &&& forall|i: NodeID| #[trigger]
                tree.has(i) ==> {
                    &&& after.live(i) == (tree.live(i) && !tree.within(i, id))
                    &&& crate::frame::same_content(tree.node(i), after.node(i))
                    &&& after.parent(i) == tree.parent(i)
                    &&& after.node(i).file() == tree.node(i).file()
                    &&& after.node(i).directory() == tree.node(i).directory()
                }
            &&& !after.live(id)
        }),
{
    let id = tree.resolve(hashes)->0;
    let after = tree.deleted(hashes).tree;
    tree.lemma_resolved_node(hashes);
    tree.lemma_removed_wf(id);
    tree.lemma_within_self(id);
    assert forall|other: Seq<u64>| #[trigger] after.resolve(other) == tree.resolve(other) by {
        tree.lemma_same_resolve(after, ROOT_NODE, other, 0);
    }
}

/// Deleting what is not there, or is deleted already, does nothing.
pub proof fn law_delete_of_nothing_is_no_change(tree: Tree, hashes: Seq<u64>)
    requires
        tree.resolve(hashes) matches Some(id) ==> !tree.live(id),
    ensures
        tree.deleted(hashes).tree == tree,
        tree.deleted(hashes).hidden is None,
{
}

/// A second delete of the same path does nothing.
pub proof fn law_delete_is_idempotent(tree: Tree, hashes: Seq<u64>)
    requires
        tree.wf(),
        hashes.len() > 0,
    ensures
        tree.deleted(hashes).tree.deleted(hashes).tree == tree.deleted(hashes).tree,
        tree.deleted(hashes).tree.deleted(hashes).hidden is None,
{
    if tree.resolve(hashes) is Some && tree.live(tree.resolve(hashes)->0) {
        law_delete_hides(tree, hashes);
    }
}

/// Staging a leaf at the path of a deleted file brings the file back: the
/// same node, live, with the new content.
pub proof fn law_recreated_file_is_undeleted(
    tree: Tree,
    names: Seq<Seq<char>>,
    hashes: Seq<u64>,
    content: LeafContent,
)
    requires
        tree.wf(),
        hashes.len() > 0,
        tree.resolve(hashes) is Some,
        tree.live(tree.resolve(hashes)->0),
        tree.node(tree.resolve(hashes)->0).file(),
    ensures
        ({
            let id = tree.resolve(hashes)->0;
            let gone = tree.deleted(hashes).tree;
            let back = gone.staged(names, crate::staging::leaf_plan(hashes, content));
            &&& back.result == Ok::<NodeID, Refusal>(id)
            &&& back.tree.entries.len() == tree.entries.len()
            &&& back.tree.resolve(hashes) == Some(id)
            &&& gone.leaf_written(back.tree, id, content)
        }),
{
    let id = tree.resolve(hashes)->0;
    let gone = tree.deleted(hashes).tree;
    let plan = crate::staging::leaf_plan(hashes, content);
    law_delete_hides(tree, hashes);
    gone_directory(tree, hashes);
    gone.lemma_resolve_last(ROOT_NODE, hashes, 0);
    gone.lemma_stage_last(ROOT_NODE, names, plan, 0);
    tree.lemma_resolved_node(hashes);
    assert(tree.has(id));
    assert(gone.node(id).file());
    assert(gone.resolve(hashes) == tree.resolve(hashes));
    law_leaf_reads_back(gone, names, hashes, content);
}

/// Staging a directory at the path of a deleted directory brings the
/// directory back: the same node, live. What was in it stays hidden.
pub proof fn law_recreated_directory_is_undeleted(
    tree: Tree,
    names: Seq<Seq<char>>,
    hashes: Seq<u64>,
)
    requires
        tree.wf(),
        hashes.len() > 0,
        tree.resolve(hashes) is Some,
        tree.open_directory(tree.resolve(hashes)->0),
    ensures
        ({
            let id = tree.resolve(hashes)->0;
            let gone = tree.deleted(hashes).tree;
            let back = gone.staged(names, crate::staging::directory_plan(hashes));
            &&& back.result == Ok::<NodeID, Refusal>(id)
            &&& back.tree.entries.len() == tree.entries.len()
            &&& back.tree.resolve(hashes) == Some(id)
            &&& back.tree.open_directory(id)
            &&& back.tree.barren(id)
        }),
{
    let id = tree.resolve(hashes)->0;
    let gone = tree.deleted(hashes).tree;
    let plan = crate::staging::directory_plan(hashes);
    let last = hashes.len() - 1;
    law_delete_hides(tree, hashes);
    gone_directory(tree, hashes);
    gone.lemma_resolve_last(ROOT_NODE, hashes, 0);
    gone.lemma_stage_last(ROOT_NODE, names, plan, 0);
    tree.lemma_resolved_node(hashes);
    assert(tree.has(id));
    assert(gone.resolve(hashes) == tree.resolve(hashes));
    let directory = gone.resolve(hashes.drop_last())->0;
    gone.lemma_component_barren(directory, names[last], hashes[last], None);
    law_staged_directory_stands(gone, names, hashes);
}

/// The directory that a deleted node is in stays a live directory at its
/// path.
proof fn gone_directory(tree: Tree, hashes: Seq<u64>)
    requires
        tree.wf(),
        hashes.len() > 0,
        tree.resolve(hashes) is Some,
        tree.live(tree.resolve(hashes)->0),
    ensures
        ({
            let gone = tree.deleted(hashes).tree;
            gone.resolve(hashes.drop_last()) matches Some(directory) && gone.open_directory(
                directory,
            )
        }),
{
    let id = tree.resolve(hashes)->0;
    let gone = tree.deleted(hashes).tree;
    law_delete_hides(tree, hashes);
    tree.lemma_resolved_node(hashes);
    tree.lemma_way_open(ROOT_NODE, hashes, 0, hashes.len() - 1);
    assert(hashes.take(hashes.len() - 1) =~= hashes.drop_last());
    tree.lemma_resolve_last(ROOT_NODE, hashes, 0);
    let directory = tree.resolve(hashes.drop_last())->0;
    tree.lemma_found(directory, hashes.last());
    tree.lemma_parent_outside(id);
    assert(gone.resolve(hashes.drop_last()) == tree.resolve(hashes.drop_last()));
}

/// Staging something at the path of a deleted node of another kind adds a
/// node alongside it: the path leads to the new node, which is live and of
/// the kind that was asked for, and the deleted node stays deleted.
pub proof fn law_other_kind_is_added_alongside(
    tree: Tree,
    names: Seq<Seq<char>>,
    plan: Plan,
)
    requires
        tree.wf(),
        plan.hashes.len() > 0,
        tree.entries.len() < u64::MAX,
        tree.resolve(plan.hashes) is Some,
        tree.live(tree.resolve(plan.hashes)->0),
        !crate::walk::suits(
            tree.node(tree.resolve(plan.hashes)->0),
            plan.content(plan.hashes.len() - 1),
        ),
    ensures
        ({
            let id = tree.resolve(plan.hashes)->0;
            let gone = tree.deleted(plan.hashes).tree;
            let back = gone.staged(names, plan);
            let new = tree.next_id();
            &&& back.result == Ok::<NodeID, Refusal>(new)
            &&& new != id
            &&& back.tree.resolve(plan.hashes) == Some(new)
            &&& back.tree.live(new)
            &&& crate::walk::suits(
                back.tree.node(new),
                plan.content(plan.hashes.len() - 1),
            )
            &&& !back.tree.live(id)
        }),
{
    let hashes = plan.hashes;
    let last = hashes.len() - 1;
    let id = tree.resolve(hashes)->0;
    let gone = tree.deleted(hashes).tree;
    law_delete_hides(tree, hashes);
    gone_directory(tree, hashes);
    tree.lemma_resolved_node(hashes);
    gone.lemma_resolve_last(ROOT_NODE, hashes, 0);
    gone.lemma_stage_last(ROOT_NODE, names, plan, 0);
    assert(tree.has(id));
    assert(gone.resolve(hashes) == tree.resolve(hashes));
    let directory = gone.resolve(hashes.drop_last())->0;
    gone.lemma_component_alongside(
        directory,
        names[last],
        hashes[last],
        plan.content(last),
        id,
    );
    let back = gone.staged(names, plan);
    back.tree.lemma_resolve_last(ROOT_NODE, hashes, 0);
    gone.lemma_kept_resolve(back.tree, ROOT_NODE, hashes.drop_last(), 0);
}

/// Some path leads to every live node.
pub proof fn law_every_live_node_has_a_path(tree: Tree, id: NodeID) -> (hashes: Seq<u64>)
    requires
        tree.wf(),
        tree.has(id),
        tree.live(id),
    ensures
        tree.resolve(hashes) == Some(id),
{
    let rank = choose|rank: Seq<nat>| tree.ranked(rank);
    path_to(tree, id, rank)
}

proof fn path_to(tree: Tree, id: NodeID, rank: Seq<nat>) -> (hashes: Seq<u64>)
    requires
        tree.wf(),
        tree.ranked(rank),
        tree.has(id),
        tree.live(id),
    ensures
        tree.resolve(hashes) == Some(id),
    decreases rank[id as int],
{
    if id == ROOT_NODE {
        Seq::empty()
    } else {
        let parent = tree.parent(id);
        assert(tree.has(tree.parent(id)));
        let above = path_to(tree, parent, rank);
        let hashes = above.push(tree.node(id).name_hash);
        assert(hashes.drop_last() =~= above);
        tree.lemma_resolve_last(ROOT_NODE, hashes, 0);
        assert(tree.find(tree.parent(id), tree.node(id).name_hash) == Some(id));
        hashes
    }
}

/// The directories that a move makes on its way, when nothing refuses it.
pub(crate) proof fn move_ready(
    tree: Tree,
    from: Seq<u64>,
    names: Seq<Seq<char>>,
    to: Seq<u64>,
) -> (made: (Tree, NodeID))
    requires
        tree.wf(),
        tree.relocated(from, names, to).tree.entries.len() <= u64::MAX,
        tree.relocated(from, names, to).result is Ok,
        from != to,
    ensures
        ({
            let (middle, parent) = made;
            let outcome = tree.relocated(from, names, to);
            &&& tree.staged(names.drop_last(), crate::staging::directory_plan(to.drop_last())) == (
            Outcome { tree: middle, result: Ok(parent) })
            &&& tree.resolve(from) == Some(outcome.result->Ok_0)
            &&& tree.has(outcome.result->Ok_0)
            &&& tree.live(outcome.result->Ok_0)
            &&& from.len() > 0
            &&& to.len() > 0
            &&& !from.is_prefix_of(to)
            &&& !to.is_prefix_of(from)
            &&& middle.wf()
            &&& tree.kept_in(middle)
            &&& tree.content_kept_in(middle, None)
            &&& middle.resolve(from) == Some(outcome.result->Ok_0)
            &&& middle.live(outcome.result->Ok_0)
            &&& middle.resolve(to.drop_last()) == Some(parent)
            &&& middle.open_directory(parent)
        }),
{
    let plan = crate::staging::directory_plan(to.drop_last());
    let staged = tree.staged(names.drop_last(), plan);
    let parent = staged.result->Ok_0;
    let id = tree.relocated(from, names, to).result->Ok_0;
    staged.tree.lemma_cleared_nodes(parent, to.last());
    tree.lemma_stage_from(ROOT_NODE, names.drop_last(), plan, 0);
    tree.lemma_kept_resolve(staged.tree, ROOT_NODE, from, 0);
    tree.lemma_resolved_node(from);
    (staged.tree, parent)
}

/// `after` is `middle` with the node at `from` moved to `to`, below `parent`.
pub(crate) open spec fn arrived(
    middle: Tree,
    after: Tree,
    from: Seq<u64>,
    to: Seq<u64>,
    id: NodeID,
    parent: NodeID,
) -> bool {
    &&& after.wf()
    &&& after.live(id)
    &&& after.resolve(to) == Some(id)
    &&& middle.left_by_move(after, id, middle.occupant(parent, to.last()))
    &&& after.resolve(from) matches Some(left) ==> left != id && !after.live(left)
}

pub(crate) proof fn move_done(
    tree: Tree,
    from: Seq<u64>,
    names: Seq<Seq<char>>,
    to: Seq<u64>,
    middle: Tree,
    parent: NodeID,
    id: NodeID,
)
    requires
        tree.relocated(from, names, to).result == Ok::<NodeID, MoveRefusal>(id),
        from != to,
        tree.staged(names.drop_last(), crate::staging::directory_plan(to.drop_last())) == (Outcome {
            tree: middle,
            result: Ok(parent),
        }),
        from.len() > 0,
        to.len() > 0,
        !from.is_prefix_of(to),
        !to.is_prefix_of(from),
        middle.wf(),
        middle.resolve(from) == Some(id),
        middle.live(id),
        middle.resolve(to.drop_last()) == Some(parent),
        middle.open_directory(parent),
    ensures
        arrived(middle, tree.relocated(from, names, to).tree, from, to, id, parent),
{
    middle.lemma_settled_there(from, to, id, parent, names.last());
    middle.lemma_settled_gone(from, to, id, parent, names.last());
}

/// What was live at the new path is hidden.
proof fn displaced(
    tree: Tree,
    middle: Tree,
    after: Tree,
    to: Seq<u64>,
    id: NodeID,
    parent: NodeID,
)
    requires
        tree.wf(),
        middle.wf(),
        tree.kept_in(middle),
        to.len() > 0,
        middle.resolve(to.drop_last()) == Some(parent),
        middle.left_by_move(after, id, middle.occupant(parent, to.last())),
    ensures
        tree.resolve(to) matches Some(there) ==> (tree.live(there) ==> !after.live(there)),
{
    if let Some(there) = tree.resolve(to) {
        if tree.live(there) {
            tree.lemma_kept_resolve(middle, ROOT_NODE, to, 0);
            tree.lemma_resolved_node(to);
            middle.lemma_resolve_last(ROOT_NODE, to, 0);
            middle.lemma_within_self(there);
            assert(tree.has(there));
            assert(middle.has(there));
        }
    }
}

/// What a move has hidden was at the new path or below it.
proof fn hidden_below(
    tree: Tree,
    middle: Tree,
    after: Tree,
    to: Seq<u64>,
    id: NodeID,
    parent: NodeID,
    other: NodeID,
)
    requires
        tree.wf(),
        middle.wf(),
        tree.kept_in(middle),
        to.len() > 0,
        middle.resolve(to.drop_last()) == Some(parent),
        middle.left_by_move(after, id, middle.occupant(parent, to.last())),
        tree.has(other),
        tree.live(other),
        !after.live(other),
    ensures
        tree.resolve(to) matches Some(there) && tree.live(there) && tree.within(other, there),
{
    assert(middle.has(other));
    let there = middle.occupant(parent, to.last())->0;
    let steps = choose|steps: nat| #[trigger] middle.up(other, steps) == there;
    assert forall|i: NodeID| tree.has(i) implies #[trigger] middle.parent(i) == tree.parent(i) by {}
    tree.lemma_up_same(middle, other, steps);
    tree.lemma_up_has(other, steps);
    tree.lemma_live_up(other, steps);
    let path = law_every_live_node_has_a_path(tree, there);
    tree.lemma_kept_resolve(middle, ROOT_NODE, path, 0);
    middle.lemma_resolve_last(ROOT_NODE, to, 0);
    law_one_path_per_node(middle, path, to);
}

/// A move keeps the node: the new path leads to the node that the old path
/// led to, live and with what it held, and the old path leads to nothing
/// live. What was live at the new path is hidden, and the tree stays well
/// formed.
pub proof fn law_move_keeps_identity(
    tree: Tree,
    from: Seq<u64>,
    names: Seq<Seq<char>>,
    to: Seq<u64>,
    id: NodeID,
)
    requires
        tree.wf(),
        tree.relocated(from, names, to).tree.entries.len() <= u64::MAX,
        tree.relocated(from, names, to).result == Ok::<NodeID, MoveRefusal>(id),
        from != to,
    ensures
        ({
            let after = tree.relocated(from, names, to).tree;
            &&& after.wf()
            &&& tree.resolve(from) == Some(id)
            &&& after.resolve(to) == Some(id)
            &&& after.live(id)
            &&& crate::frame::same_content(tree.node(id), after.node(id))
            &&& after.node(id).file() == tree.node(id).file()
            &&& after.node(id).directory() == tree.node(id).directory()
            &&& after.resolve(from) matches Some(left) ==> left != id && !after.live(left)
            &&& tree.resolve(to) matches Some(there) ==> (tree.live(there) ==> !after.live(there))
        }),
{
    let (middle, parent) = move_ready(tree, from, names, to);
    move_done(tree, from, names, to, middle, parent, id);
    let after = tree.relocated(from, names, to).tree;
    displaced(tree, middle, after, to, id, parent);
    carried(tree, middle, after, to, id, parent, id);
}

/// Through the making of directories and the move, a node keeps what it
/// holds and its kind, and any but the moved one its place and its name.
proof fn carried(
    tree: Tree,
    middle: Tree,
    after: Tree,
    to: Seq<u64>,
    id: NodeID,
    parent: NodeID,
    other: NodeID,
)
    requires
        tree.kept_in(middle),
        tree.content_kept_in(middle, None),
        middle.left_by_move(after, id, middle.occupant(parent, to.last())),
        tree.has(other),
    ensures
        after.has(other),
        crate::frame::same_content(tree.node(other), after.node(other)),
        after.node(other).file() == tree.node(other).file(),
        after.node(other).directory() == tree.node(other).directory(),
        other != id ==> {
            &&& after.parent(other) == tree.parent(other)
            &&& after.entries[other as int].name == tree.entries[other as int].name
            &&& after.node(other).name_hash == tree.node(other).name_hash
        },
{
    assert(middle.has(other));
}

/// A move changes nobody else: every other node keeps its place, its name and
/// its kind, every node keeps what it holds, and only what was at the new
/// path, or below it, is hidden.
pub proof fn law_move_keeps_the_rest(
    tree: Tree,
    from: Seq<u64>,
    names: Seq<Seq<char>>,
    to: Seq<u64>,
    id: NodeID,
    other: NodeID,
)
    requires
        tree.wf(),
        tree.relocated(from, names, to).tree.entries.len() <= u64::MAX,
        tree.relocated(from, names, to).result == Ok::<NodeID, MoveRefusal>(id),
        from != to,
        tree.has(other),
    ensures
        ({
            let after = tree.relocated(from, names, to).tree;
            &&& after.has(other)
            &&& crate::frame::same_content(tree.node(other), after.node(other))
            &&& after.node(other).file() == tree.node(other).file()
            &&& after.node(other).directory() == tree.node(other).directory()
            &&& other != id ==> {
                &&& after.parent(other) == tree.parent(other)
                &&& after.entries[other as int].name == tree.entries[other as int].name
                &&& after.node(other).name_hash == tree.node(other).name_hash
            }
            &&& tree.live(other) && !after.live(other) ==> (tree.resolve(to) matches Some(there)
                && tree.live(there) && tree.within(other, there))
        }),
{
    let (middle, parent) = move_ready(tree, from, names, to);
    move_done(tree, from, names, to, middle, parent, id);
    let after = tree.relocated(from, names, to).tree;
    carried(tree, middle, after, to, id, parent, other);
    if tree.live(other) && !after.live(other) {
        hidden_below(tree, middle, after, to, id, parent, other);
    }
}

/// A live node other than the moved one that stays live is found by its name
/// below its directory.
proof fn found_after_move(
    tree: Tree,
    from: Seq<u64>,
    names: Seq<Seq<char>>,
    to: Seq<u64>,
    id: NodeID,
    path: Seq<u64>,
    other: NodeID,
)
    requires
        tree.wf(),
        tree.relocated(from, names, to).tree.entries.len() <= u64::MAX,
        tree.relocated(from, names, to).result == Ok::<NodeID, MoveRefusal>(id),
        from != to,
        path.len() > 0,
        path != from,
        !to.is_prefix_of(path),
        tree.resolve(path) == Some(other),
        tree.live(other),
    ensures
        ({
            let after = tree.relocated(from, names, to).tree;
            let directory = tree.parent(other);
            &&& tree.resolve(path.drop_last()) == Some(directory)
            &&& tree.live(directory)
            &&& after.live(other)
            &&& after.find(directory, path.last()) == Some(other)
        }),
{
    let after = tree.relocated(from, names, to).tree;
    law_move_keeps_identity(tree, from, names, to, id);
    tree.lemma_resolved_node(path);
    law_move_keeps_the_rest(tree, from, names, to, id, other);
    tree.lemma_resolve_last(ROOT_NODE, path, 0);
    tree.lemma_found(tree.resolve(path.drop_last())->0, path.last());
    if other == id {
        law_one_path_per_node(tree, path, from);
    }
    if !after.live(other) {
        tree.lemma_prefix(path, to);
    }
    assert(tree.has(tree.parent(other)));
    assert(after.find(after.parent(other), after.node(other).name_hash) == Some(other));
}

/// A path that neither starts with the old nor with the new one leads to the
/// live node that it led to before.
pub proof fn law_other_paths_stand_through_move(
    tree: Tree,
    from: Seq<u64>,
    names: Seq<Seq<char>>,
    to: Seq<u64>,
    id: NodeID,
    path: Seq<u64>,
    other: NodeID,
)
    requires
        tree.wf(),
        tree.relocated(from, names, to).tree.entries.len() <= u64::MAX,
        tree.relocated(from, names, to).result == Ok::<NodeID, MoveRefusal>(id),
        from != to,
        !from.is_prefix_of(path),
        !to.is_prefix_of(path),
        tree.resolve(path) == Some(other),
        tree.live(other),
    ensures
        tree.relocated(from, names, to).tree.resolve(path) == Some(other),
        tree.relocated(from, names, to).tree.live(other),
    decreases path.len(),
{
    let after = tree.relocated(from, names, to).tree;
    law_move_keeps_identity(tree, from, names, to, id);
    if path.len() > 0 {
        let above = path.drop_last();
        if path == from {
            assert(from =~= path.subrange(0, from.len() as int));
        }
        found_after_move(tree, from, names, to, id, path, other);
        if from.is_prefix_of(above) {
            assert(from =~= path.subrange(0, from.len() as int));
        }
        if to.is_prefix_of(above) {
            assert(to =~= path.subrange(0, to.len() as int));
        }
        law_other_paths_stand_through_move(tree, from, names, to, id, above, tree.parent(other));
        after.lemma_resolve_last(ROOT_NODE, path, 0);
    }
}

/// A move takes everything below the node along: what was live at the end of
/// a path that continued the old one is at the end of the path that continues
/// the new one in the same way.
pub proof fn law_move_takes_along_what_is_below(
    tree: Tree,
    from: Seq<u64>,
    names: Seq<Seq<char>>,
    to: Seq<u64>,
    id: NodeID,
    rest: Seq<u64>,
    other: NodeID,
)
    requires
        tree.wf(),
        tree.relocated(from, names, to).tree.entries.len() <= u64::MAX,
        tree.relocated(from, names, to).result == Ok::<NodeID, MoveRefusal>(id),
        from != to,
        tree.resolve(from + rest) == Some(other),
        tree.live(other),
    ensures
        tree.relocated(from, names, to).tree.resolve(to + rest) == Some(other),
        tree.relocated(from, names, to).tree.live(other),
    decreases rest.len(),
{
    let after = tree.relocated(from, names, to).tree;
    let path = from + rest;
    law_move_keeps_identity(tree, from, names, to, id);
    if rest.len() > 0 {
        if to.is_prefix_of(path) {
            if to.len() <= from.len() {
                assert(to =~= from.subrange(0, to.len() as int));
            } else {
                assert(from =~= to.subrange(0, from.len() as int));
            }
        }
        found_after_move(tree, from, names, to, id, path, other);
        assert(path.drop_last() =~= from + rest.drop_last());
        law_move_takes_along_what_is_below(
            tree,
            from,
            names,
            to,
            id,
            rest.drop_last(),
            tree.parent(other),
        );
        assert((to + rest).drop_last() =~= to + rest.drop_last());
        after.lemma_resolve_last(ROOT_NODE, to + rest, 0);
    } else {
        assert(from + rest =~= from);
        assert(to + rest =~= to);
    }
}

/// A move that is refused, or goes nowhere, leaves the tree as it was.
pub proof fn law_refused_move_changes_nothing(
    tree: Tree,
    from: Seq<u64>,
    names: Seq<Seq<char>>,
    to: Seq<u64>,
)
    requires
        tree.wf(),
        tree.relocated(from, names, to).tree.entries.len() <= u64::MAX,
        tree.relocated(from, names, to).result is Err || from == to,
    ensures
        tree.relocated(from, names, to).tree == tree,
{
    let plan = crate::staging::directory_plan(to.drop_last());
    if to.len() > 0 && tree.staged(names.drop_last(), plan).result is Err {
        let outcome = tree.staged(names.drop_last(), plan);
        if outcome.tree.entries.len() <= u64::MAX {
            law_refusal_changes_nothing(tree, names.drop_last(), plan);
        }
    }
}

/// A move is done exactly when neither path is the root, something live is at
/// the old one, and the paths are the same, or neither lies within the other
/// and every directory on the way to the new place is there or can be made.
pub proof fn law_move_done_exactly_when_possible(
    tree: Tree,
    from: Seq<u64>,
    names: Seq<Seq<char>>,
    to: Seq<u64>,
)
    requires
        tree.wf(),
        tree.relocated(from, names, to).tree.entries.len() <= u64::MAX,
    ensures
        tree.relocated(from, names, to).result is Ok <==> {
            &&& from.len() > 0
            &&& to.len() > 0
            &&& tree.resolve(from) matches Some(id) && tree.live(id)
            &&& from == to || {
                &&& !from.is_prefix_of(to)
                &&& !to.is_prefix_of(from)
                &&& !exists|at: int| #[trigger]
                    tree.blocked_from(
                        ROOT_NODE,
                        crate::staging::directory_plan(to.drop_last()),
                        0,
                        at,
                    )
            }
        },
{
    if to.len() > 0 {
        let plan = crate::staging::directory_plan(to.drop_last());
        let staged = tree.staged(names.drop_last(), plan);
        if let Ok(parent) = staged.result {
            staged.tree.lemma_cleared_nodes(parent, to.last());
        }
        if staged.tree.entries.len() <= u64::MAX {
            law_refused_exactly_when_blocked(tree, names.drop_last(), plan);
        }
    }
}

/// A second rewrite of a leaf replaces the first one wholly, unless it brings
/// no identity where the first one did; and the same rewrite twice is as good
/// as once.
pub proof fn law_last_rewrite_wins(node: Node, first: LeafContent, second: LeafContent)
    ensures
        ({
            let once = crate::direct_write::rewritten_leaf(node, first);
            let twice = crate::direct_write::rewritten_leaf(once, second);
            &&& !second.address.context.zero() || first.address.context.zero() ==> twice
                == crate::direct_write::rewritten_leaf(node, second)
            &&& first == second ==> twice == once
        }),
{
}

/// Whatever a store answers, a walk comes to an end: each step finishes it,
/// goes on to the next component, or brings the present one forward.
pub proof fn law_every_step_makes_progress<E>(plan: Plan, cursor: Cursor, event: Event<E>)
    requires
        cursor.index < plan.hashes.len() <= usize::MAX,
        crate::walk::fits(cursor.phase, event),
    ensures
        ({
            let (after, action) = crate::walk::next(plan, cursor, event);
            &&& after.phase is Finished <==> action is Finish
            &&& after.phase is Finished || after.index == cursor.index + 1 || (after.index
                == cursor.index && crate::course::phase_rank(after.phase)
                < crate::course::phase_rank(cursor.phase))
            &&& after.phase is Finished || after.index < plan.hashes.len()
        }),
{
}

/// A failure of the store ends a walk and is what the walk ends with.
pub proof fn law_store_failure_ends_walk<E>(plan: Plan, cursor: Cursor, error: E)
    ensures
        crate::walk::next(plan, cursor, Event::Failed(error)).1 == Action::<E>::Finish(
            Err(WalkError::Store(error)),
        ),
        crate::walk::next(plan, cursor, Event::Failed(error)).0.phase is Finished,
{
}

} // verus!
