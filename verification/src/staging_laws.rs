//! What staging a path does to each node of the tree, and what it leaves
//! alone.

use vstd::prelude::*;
use crate::direct_write::LeafContent;
use crate::errors::Refusal;
use crate::node::{NodeFlags, NodeID, ROOT_NODE, TRUSTED_CONTENT_MARKER};
use crate::tree::Tree;
use crate::walk::{Plan, Target};

verus! {

/// A path is followed name by name: the empty path leads to the root, and a
/// longer one to what its last name leads to below the rest.
pub proof fn law_path_is_followed_name_by_name(tree: Tree, hashes: Seq<u64>, last: u64)
    ensures
        tree.resolve(Seq::empty()) == Some(ROOT_NODE),
        tree.resolve(hashes.push(last)) == match tree.resolve(hashes) {
            Some(directory) => tree.find(directory, last),
            None => None,
        },
{
    let path = hashes.push(last);
    tree.lemma_resolve_last(ROOT_NODE, path, 0);
    assert(path.drop_last() =~= hashes);
}

/// A lookup gives a child of the directory that goes by the name, and gives
/// every live child by its own name.
pub proof fn law_lookup_goes_by_place_and_name(
    tree: Tree,
    directory: NodeID,
    name_hash: u64,
    child: NodeID,
)
    requires
        tree.wf(),
    ensures
        tree.find(directory, name_hash) == Some(child) ==> {
            &&& child != ROOT_NODE
            &&& child < tree.entries.len()
            &&& tree.entries[child as int].parent == directory
            &&& tree.entries[child as int].node.name_hash == name_hash
        },
        child != ROOT_NODE && child < tree.entries.len() && tree.entries[child as int].parent
            == directory && tree.entries[child as int].node.name_hash == name_hash
            && !tree.entries[child as int].node.flags.staged_delete ==> tree.find(
            directory,
            name_hash,
        ) == Some(child),
{
    tree.lemma_found(directory, name_hash);
    if tree.has(child) && tree.live(child) {
        assert(child != ROOT_NODE ==> tree.find(tree.parent(child), tree.node(child).name_hash)
            == Some(child));
    }
}

/// The way up from what a path leads to goes back along the path.
pub proof fn law_way_up_is_the_way_back(tree: Tree, hashes: Seq<u64>, id: NodeID, back: nat)
    requires
        tree.wf(),
        tree.resolve(hashes) == Some(id),
        back <= hashes.len(),
    ensures
        tree.resolve(hashes.take(hashes.len() - back)) == Some(tree.up(id, back)),
    decreases back,
{
    if back == 0 {
        assert(hashes.take(hashes.len() as int) =~= hashes);
    } else {
        let above = hashes.drop_last();
        tree.lemma_resolve_last(ROOT_NODE, hashes, 0);
        tree.lemma_found(tree.resolve(above)->0, hashes.last());
        law_way_up_is_the_way_back(tree, above, tree.parent(id), (back - 1) as nat);
        assert(above.take(above.len() - (back - 1)) =~= hashes.take(hashes.len() - back));
    }
}

/// What lies on the way up from the end of a path is at the end of a part of
/// the path.
pub proof fn lemma_on_the_way(tree: Tree, hashes: Seq<u64>, id: NodeID, i: NodeID) -> (k: int)
    requires
        tree.wf(),
        tree.resolve(hashes) == Some(id),
        tree.within(id, i),
    ensures
        0 <= k <= hashes.len(),
        tree.resolve(hashes.take(k)) == Some(i),
{
    let count = hashes.len();
    let steps = choose|steps: nat| #[trigger] tree.up(id, steps) == i;
    if steps <= count {
        law_way_up_is_the_way_back(tree, hashes, id, steps);
        count - steps
    } else {
        law_way_up_is_the_way_back(tree, hashes, id, count);
        assert(hashes.take(0) =~= Seq::empty());
        tree.lemma_up_add(id, count, (steps - count) as nat);
        tree.lemma_up_root((steps - count) as nat);
        0
    }
}

/// What a part of a path leads to lies on the way up from what a longer part
/// leads to.
pub proof fn lemma_above(tree: Tree, hashes: Seq<u64>, k: int, m: int, i: NodeID, low: NodeID)
    requires
        tree.wf(),
        0 <= k <= m <= hashes.len(),
        tree.resolve(hashes.take(k)) == Some(i),
        tree.resolve(hashes.take(m)) == Some(low),
    ensures
        tree.within(low, i),
{
    let part = hashes.take(m);
    law_way_up_is_the_way_back(tree, part, low, (m - k) as nat);
    assert(part.take(k) =~= hashes.take(k));
    assert(tree.up(low, (m - k) as nat) == i);
}

/// Every part of a path leads somewhere if the whole path does.
proof fn lemma_part_resolves(tree: Tree, hashes: Seq<u64>, k: int)
    requires
        tree.wf(),
        tree.resolve(hashes) is Some,
        0 <= k <= hashes.len(),
    ensures
        tree.resolve(hashes.take(k)) is Some,
{
    law_way_up_is_the_way_back(
        tree,
        hashes,
        tree.resolve(hashes)->0,
        (hashes.len() - k) as nat,
    );
}

/// What is known of a staging that succeeded.
proof fn staging_done(tree: Tree, names: Seq<Seq<char>>, plan: Plan, id: NodeID)
    requires
        tree.wf(),
        tree.staged(names, plan).tree.entries.len() <= u64::MAX,
        tree.staged(names, plan).result == Ok::<NodeID, Refusal>(id),
    ensures
        ({
            let after = tree.staged(names, plan).tree;
            &&& after.wf()
            &&& tree.path_effect(after, id, plan.target is Leaf)
            &&& after.resolve(plan.hashes) == Some(id)
            &&& after.has(id)
            &&& after.live(id)
            &&& if plan.target is Leaf {
                after.node(id).file()
            } else {
                after.node(id).directory()
            }
        }),
{
    tree.lemma_stage_from(ROOT_NODE, names, plan, 0);
    tree.lemma_path_effect(ROOT_NODE, names, plan, 0);
}

/// Staging leaves the whole record of a node as it was, with its name, its
/// place and all its flags, unless the node stands on the staged path at or
/// above something that was added, brought back or written.
pub proof fn law_staging_leaves_the_rest_alone(
    tree: Tree,
    names: Seq<Seq<char>>,
    plan: Plan,
    id: NodeID,
    i: NodeID,
)
    requires
        tree.wf(),
        tree.staged(names, plan).tree.entries.len() <= u64::MAX,
        tree.staged(names, plan).result == Ok::<NodeID, Refusal>(id),
        i < tree.entries.len(),
    ensures
        ({
            let after = tree.staged(names, plan).tree;
            &&& i < after.entries.len()
            &&& after.entries[i as int] == tree.entries[i as int] || exists|k: int, m: int|
                #![trigger plan.hashes.take(k), plan.hashes.take(m)]
                {
                    &&& 0 <= k <= m <= plan.hashes.len()
                    &&& after.resolve(plan.hashes.take(k)) == Some(i)
                    &&& after.resolve(plan.hashes.take(m)) matches Some(low) && {
                        ||| low >= tree.entries.len()
                        ||| tree.entries[low as int].node.flags.staged_delete
                        ||| plan.target is Leaf && m == plan.hashes.len()
                    }
                }
        }),
{
    let after = tree.staged(names, plan).tree;
    let leaf = plan.target is Leaf;
    staging_done(tree, names, plan, id);
    assert(tree.has(i));
    if after.entries[i as int] != tree.entries[i as int] {
        let c = choose|c: NodeID|
            #![trigger after.within(id, c)]
            tree.touched_in(after, id, leaf, c) && after.within(c, i);
        let m0 = lemma_on_the_way(after, plan.hashes, id, c);
        let m: int = if leaf && c == id {
            plan.hashes.len() as int
        } else {
            m0
        };
        assert(plan.hashes.take(plan.hashes.len() as int) =~= plan.hashes);
        let way = plan.hashes.take(m);
        let k = lemma_on_the_way(after, way, c, i);
        assert(way.take(k) =~= plan.hashes.take(k));
        assert(0 <= k <= m <= plan.hashes.len());
        assert(after.resolve(plan.hashes.take(k)) == Some(i));
        assert(after.resolve(plan.hashes.take(m)) == Some(c));
    }
}

/// Off its own path, staging changes no record at all.
pub proof fn law_staging_changes_only_its_path(
    tree: Tree,
    names: Seq<Seq<char>>,
    plan: Plan,
    id: NodeID,
    i: NodeID,
)
    requires
        tree.wf(),
        tree.staged(names, plan).tree.entries.len() <= u64::MAX,
        tree.staged(names, plan).result == Ok::<NodeID, Refusal>(id),
        i < tree.entries.len(),
        forall|k: int|
            #![trigger plan.hashes.take(k)]
            0 <= k <= plan.hashes.len() ==> tree.staged(names, plan).tree.resolve(
                plan.hashes.take(k),
            ) != Some(i),
    ensures
        tree.staged(names, plan).tree.entries[i as int] == tree.entries[i as int],
{
    law_staging_leaves_the_rest_alone(tree, names, plan, id, i);
}

/// Staging makes nothing live that was not, off its own path: a node that was
/// staged for deletion and no longer is stands on the path. And it stages
/// nothing for deletion.
pub proof fn law_staging_revives_only_its_path(
    tree: Tree,
    names: Seq<Seq<char>>,
    plan: Plan,
    i: NodeID,
)
    requires
        tree.wf(),
        tree.staged(names, plan).tree.entries.len() <= u64::MAX,
        i < tree.entries.len(),
    ensures
        ({
            let after = tree.staged(names, plan).tree;
            let deleted = tree.entries[i as int].node.flags.staged_delete;
            let still = after.entries[i as int].node.flags.staged_delete;
            &&& i < after.entries.len()
            &&& !deleted ==> !still
            &&& deleted && !still ==> exists|k: int|
                #![trigger plan.hashes.take(k)]
                1 <= k <= plan.hashes.len() && after.resolve(plan.hashes.take(k)) == Some(i)
        }),
{
    let after = tree.staged(names, plan).tree;
    match tree.staged(names, plan).result {
        Ok(id) => {
            staging_done(tree, names, plan, id);
            law_staging_leaves_the_rest_alone(tree, names, plan, id, i);
            assert(tree.has(i));
            assert(tree.node_kept(after, i));
            if !tree.live(i) && after.live(i) {
                let (k, m) = choose|k: int, m: int|
                    #![trigger plan.hashes.take(k), plan.hashes.take(m)]
                    0 <= k <= m <= plan.hashes.len() && after.resolve(plan.hashes.take(k)) == Some(
                        i,
                    );
                if k == 0 {
                    assert(plan.hashes.take(0) =~= Seq::empty());
                    assert(i == ROOT_NODE);
                }
                assert(1 <= k <= plan.hashes.len() && after.resolve(plan.hashes.take(k)) == Some(
                    i,
                ));
            }
        },
        Err(_) => {
            crate::laws::law_refusal_changes_nothing(tree, names, plan);
        },
    }
}

/// Whatever is staged, every node that was there keeps its place, its name,
/// its kind, and the marks of having been added or moved. The mark of a
/// modified file is set on the leaf that was written and on no other node,
/// and no other node's content changes.
pub proof fn law_staging_keeps_marks(
    tree: Tree,
    names: Seq<Seq<char>>,
    plan: Plan,
    id: NodeID,
    i: NodeID,
)
    requires
        tree.wf(),
        tree.staged(names, plan).tree.entries.len() <= u64::MAX,
        tree.staged(names, plan).result == Ok::<NodeID, Refusal>(id),
        i < tree.entries.len(),
    ensures
        ({
            let after = tree.staged(names, plan).tree;
            let old = tree.entries[i as int];
            let new = after.entries[i as int];
            let written = plan.target is Leaf && i == id;
            &&& new.parent == old.parent
            &&& new.name == old.name
            &&& new.node.name_hash == old.node.name_hash
            &&& new.node.flags.file == old.node.flags.file
            &&& new.node.flags.link == old.node.flags.link
            &&& new.node.flags.staged_add == old.node.flags.staged_add
            &&& new.node.flags.staged_move == old.node.flags.staged_move
            &&& new.node.flags.staged_modify == (old.node.flags.staged_modify || written)
            &&& old.node.flags.staged ==> new.node.flags.staged
            &&& !written ==> {
                &&& new.node.mode == old.node.mode
                &&& new.node.size == old.node.size
                &&& new.node.address == old.node.address
                &&& new.node.reserved == old.node.reserved
            }
        }),
{
    staging_done(tree, names, plan, id);
    assert(tree.has(i));
    assert(tree.node_kept(tree.staged(names, plan).tree, i));
}

/// A live file that is written again stays the node it was: it keeps its
/// name, its place, its kind and every staging mark it had, and only the
/// marks of something staged and of a modified file are added. It holds the
/// new content, and its old identity where the content brings none.
pub proof fn law_overwritten_leaf_keeps_its_marks(
    tree: Tree,
    names: Seq<Seq<char>>,
    hashes: Seq<u64>,
    content: LeafContent,
    i: NodeID,
)
    requires
        tree.wf(),
        hashes.len() > 0,
        tree.resolve(hashes) == Some(i),
        tree.entries[i as int].node.flags.file,
        !tree.entries[i as int].node.flags.link,
        !tree.entries[i as int].node.flags.staged_delete,
    ensures
        ({
            let outcome = tree.staged(names, Plan { hashes, target: Target::Leaf(content) });
            let old = tree.entries[i as int];
            let new = outcome.tree.entries[i as int];
            &&& outcome.result == Ok::<NodeID, Refusal>(i)
            &&& outcome.tree.entries.len() == tree.entries.len()
            &&& new.parent == old.parent
            &&& new.name == old.name
            &&& new.node.name_hash == old.node.name_hash
            &&& new.node.flags == NodeFlags {
                file: true,
                link: false,
                staged: true,
                staged_add: old.node.flags.staged_add,
                staged_modify: true,
                staged_delete: false,
                staged_move: old.node.flags.staged_move,
            }
            &&& new.node.mode == content.mode
            &&& new.node.size == content.size
            &&& new.node.reserved == TRUSTED_CONTENT_MARKER
            &&& new.node.address.hash == content.address.hash
            &&& new.node.address.context.id == if content.address.context.id == 0 {
                old.node.address.context.id
            } else {
                content.address.context.id
            }
        }),
{
    let plan = Plan { hashes, target: Target::Leaf(content) };
    tree.lemma_resolved_node(hashes);
    crate::laws::law_existing_leaf_is_reused(tree, names, hashes, content);
    crate::laws::law_leaf_reads_back(tree, names, hashes, content);
    law_staging_keeps_marks(tree, names, plan, i, i);
    crate::laws::law_staging_keeps_tree_sound(tree, names, plan);
}

/// A leaf that was written holds the content, whether it was there or not and
/// deleted or not. Its identity is the one that the content brings, or where
/// that brings none, the one it had.
pub proof fn law_written_leaf_holds_its_content(
    tree: Tree,
    names: Seq<Seq<char>>,
    hashes: Seq<u64>,
    content: LeafContent,
    id: NodeID,
)
    requires
        tree.wf(),
        tree.staged(names, Plan { hashes, target: Target::Leaf(content) }).tree.entries.len()
            <= u64::MAX,
        tree.staged(names, Plan { hashes, target: Target::Leaf(content) }).result == Ok::<
            NodeID,
            Refusal,
        >(id),
    ensures
        ({
            let after = tree.staged(names, Plan { hashes, target: Target::Leaf(content) }).tree;
            let new = after.entries[id as int].node;
            &&& id < after.entries.len()
            &&& after.resolve(hashes) == Some(id)
            &&& new.flags.file && !new.flags.link && !new.flags.staged_delete && new.flags.staged
            &&& new.mode == content.mode
            &&& new.size == content.size
            &&& new.address.hash == content.address.hash
            &&& new.reserved == TRUSTED_CONTENT_MARKER
            &&& new.address.context.id == if content.address.context.id == 0 && id
                < tree.entries.len() {
                tree.entries[id as int].node.address.context.id
            } else {
                content.address.context.id
            }
            &&& after.dirty
        }),
{
    crate::laws::law_leaf_reads_back(tree, names, hashes, content);
}

/// What a sound tree is: every node hangs from a directory of the tree, what
/// is live from one that is live, the root is a live directory, and the way
/// up from every node ends there.
pub proof fn law_sound_tree_hangs_from_its_root(tree: Tree, i: NodeID)
    requires
        tree.wf(),
        i < tree.entries.len(),
    ensures
        ({
            let above = tree.entries[i as int].parent;
            let root = tree.entries[ROOT_NODE as int].node.flags;
            &&& above < tree.entries.len()
            &&& !tree.entries[above as int].node.flags.file
            &&& !tree.entries[above as int].node.flags.link
            &&& !tree.entries[i as int].node.flags.staged_delete
                ==> !tree.entries[above as int].node.flags.staged_delete
            &&& !root.file && !root.link && !root.staged_delete
            &&& exists|steps: nat| #[trigger] tree.up(i, steps) == ROOT_NODE
        }),
{
    assert(tree.has(tree.parent(i)));
    let rank = choose|rank: Seq<nat>| tree.ranked(rank);
    let steps = steps_to_root(tree, i, rank);
}

proof fn steps_to_root(tree: Tree, i: NodeID, rank: Seq<nat>) -> (steps: nat)
    requires
        tree.wf(),
        tree.ranked(rank),
        tree.has(i),
    ensures
        tree.up(i, steps) == ROOT_NODE,
    decreases rank[i as int],
{
    if i == ROOT_NODE {
        0
    } else {
        assert(tree.has(tree.parent(i)));
        steps_to_root(tree, tree.parent(i), rank) + 1
    }
}

/// A new node bears the name of the component that it stands for, hangs where
/// the components before it lead, and is what was asked for and no more: the
/// last one of a path to a leaf a file with the content, staged as added, and
/// every other one an empty directory, staged.
pub proof fn law_new_nodes_bear_their_names(
    tree: Tree,
    names: Seq<Seq<char>>,
    plan: Plan,
    id: NodeID,
    k: int,
)
    requires
        tree.wf(),
        tree.staged(names, plan).tree.entries.len() <= u64::MAX,
        tree.staged(names, plan).result == Ok::<NodeID, Refusal>(id),
        0 <= k < plan.hashes.len(),
    ensures
        ({
            let after = tree.staged(names, plan).tree;
            &&& after.resolve(plan.hashes.take(k + 1)) matches Some(i) && {
                let new = after.entries[i as int];
                let leaf = k == plan.hashes.len() - 1 && plan.target is Leaf;
                &&& i < after.entries.len()
                &&& after.resolve(plan.hashes.take(k)) == Some(new.parent)
                &&& i >= tree.entries.len() ==> {
                    &&& new.name == names[k]
                    &&& new.node.name_hash == plan.hashes[k]
                    &&& new.node.flags == NodeFlags {
                        file: leaf,
                        link: false,
                        staged: true,
                        staged_add: leaf,
                        staged_modify: false,
                        staged_delete: false,
                        staged_move: false,
                    }
                    &&& leaf ==> {
                        &&& new.node.mode == plan.target->Leaf_0.mode
                        &&& new.node.size == plan.target->Leaf_0.size
                        &&& new.node.address == plan.target->Leaf_0.address
                        &&& new.node.reserved == TRUSTED_CONTENT_MARKER
                    }
                    &&& !leaf ==> {
                        &&& new.node.mode == 0
                        &&& new.node.size == 0
                        &&& new.node.address.hash.high == 0
                        &&& new.node.address.hash.low == 0
                        &&& new.node.address.context.id == 0
                        &&& new.node.reserved == 0
                    }
                }
            }
        }),
{
    let after = tree.staged(names, plan).tree;
    let way = plan.hashes.take(k + 1);
    staging_done(tree, names, plan, id);
    tree.lemma_stands_at(ROOT_NODE, names, plan, 0, k);
    after.lemma_resolve_last(ROOT_NODE, way, 0);
    assert(way.drop_last() =~= plan.hashes.take(k));
    after.lemma_found(after.resolve(plan.hashes.take(k))->0, way.last());
}

/// Nothing is added off the path: every new node stands for a component.
pub proof fn law_new_nodes_are_on_the_path(
    tree: Tree,
    names: Seq<Seq<char>>,
    plan: Plan,
    id: NodeID,
    i: NodeID,
)
    requires
        tree.wf(),
        tree.staged(names, plan).tree.entries.len() <= u64::MAX,
        tree.staged(names, plan).result == Ok::<NodeID, Refusal>(id),
        tree.entries.len() <= i < tree.staged(names, plan).tree.entries.len(),
    ensures
        exists|k: int|
            #![trigger plan.hashes.take(k)]
            1 <= k <= plan.hashes.len() && tree.staged(names, plan).tree.resolve(
                plan.hashes.take(k),
            ) == Some(i),
{
    let after = tree.staged(names, plan).tree;
    staging_done(tree, names, plan, id);
    assert(after.has(i) && !tree.has(i));
    let k = lemma_on_the_way(after, plan.hashes, id, i);
    if k == 0 {
        assert(plan.hashes.take(0) =~= Seq::empty());
    }
    assert(1 <= k <= plan.hashes.len() && after.resolve(plan.hashes.take(k)) == Some(i));
}

/// What is there is used: a component keeps its node, deleted or not, exactly
/// as long as it and all before it lead to nodes of the kinds that the path
/// asks for.
pub proof fn law_staging_uses_what_is_there(
    tree: Tree,
    names: Seq<Seq<char>>,
    plan: Plan,
    id: NodeID,
    k: int,
)
    requires
        tree.wf(),
        tree.staged(names, plan).tree.entries.len() <= u64::MAX,
        tree.staged(names, plan).result == Ok::<NodeID, Refusal>(id),
        0 <= k < plan.hashes.len(),
    ensures
        ({
            let after = tree.staged(names, plan).tree;
            let there = forall|j: int|
                #![trigger plan.hashes.take(j + 1)]
                0 <= j <= k ==> (tree.resolve(plan.hashes.take(j + 1)) matches Some(node)
                    && !tree.entries[node as int].node.flags.link
                    && tree.entries[node as int].node.flags.file == (plan.target is Leaf && j
                    == plan.hashes.len() - 1));
            &&& after.resolve(plan.hashes.take(k + 1)) matches Some(i) && (i < tree.entries.len()
                <==> there)
            &&& there ==> after.resolve(plan.hashes.take(k + 1)) == tree.resolve(
                plan.hashes.take(k + 1),
            )
        }),
{
    let after = tree.staged(names, plan).tree;
    staging_done(tree, names, plan, id);
    tree.lemma_stands_at(ROOT_NODE, names, plan, 0, k);
    let i = after.resolve(plan.hashes.take(k + 1))->0;
    let there = forall|j: int|
        #![trigger plan.hashes.take(j + 1)]
        0 <= j <= k ==> (tree.resolve(plan.hashes.take(j + 1)) matches Some(node)
            && !tree.entries[node as int].node.flags.link
            && tree.entries[node as int].node.flags.file == (plan.target is Leaf && j
            == plan.hashes.len() - 1));
    if there {
        assert(tree.way_suits(ROOT_NODE, plan, 0, k));
    }
    if tree.has(i) {
        assert forall|j: int|
            #![trigger plan.hashes.take(j + 1)]
            0 <= j <= k implies (tree.resolve(plan.hashes.take(j + 1)) matches Some(node)
            && !tree.entries[node as int].node.flags.link
            && tree.entries[node as int].node.flags.file == (plan.target is Leaf && j
            == plan.hashes.len() - 1)) by {
            used_before(tree, names, plan, id, j, k, i);
        }
    }
}

/// A component before one that keeps its node keeps its own, of the right
/// kind.
proof fn used_before(
    tree: Tree,
    names: Seq<Seq<char>>,
    plan: Plan,
    id: NodeID,
    j: int,
    k: int,
    i: NodeID,
)
    requires
        tree.wf(),
        tree.staged(names, plan).tree.entries.len() <= u64::MAX,
        tree.staged(names, plan).result == Ok::<NodeID, Refusal>(id),
        0 <= j <= k < plan.hashes.len(),
        tree.staged(names, plan).tree.resolve(plan.hashes.take(k + 1)) == Some(i),
        tree.has(i),
    ensures
        tree.resolve(plan.hashes.take(j + 1)) matches Some(node) && !tree.node(node).flags.link
            && tree.node(node).flags.file == (plan.target is Leaf && j == plan.hashes.len() - 1),
{
    let after = tree.staged(names, plan).tree;
    let way = plan.hashes.take(k + 1);
    let back = (k - j) as nat;
    staging_done(tree, names, plan, id);
    tree.lemma_stands_at(ROOT_NODE, names, plan, 0, j);
    law_way_up_is_the_way_back(after, way, i, back);
    assert(way.take(way.len() - back) =~= plan.hashes.take(j + 1));
    assert forall|x: NodeID| tree.has(x) implies #[trigger] after.parent(x) == tree.parent(x) by {
        assert(tree.node_kept(after, x));
    }
    tree.lemma_up_same(after, i, back);
    tree.lemma_up_has(i, back);
    let node = tree.up(i, back);
    assert(tree.node_kept(after, node));
    if j + 1 < plan.hashes.len() {
        let next = plan.hashes.take(j + 2);
        lemma_part_resolves(after, plan.hashes, j + 2);
        after.lemma_resolve_last(ROOT_NODE, next, 0);
        assert(next.drop_last() =~= plan.hashes.take(j + 1));
        let child = after.resolve(next)->0;
        after.lemma_found(node, next.last());
        assert(after.has(after.parent(child)));
    } else {
        assert(plan.hashes.take(j + 1) =~= plan.hashes);
    }
}

/// Where a component was added, brought back or written, it and everything
/// above it on the path is staged, and the tree is dirty. Where no component
/// was, nothing has changed.
pub proof fn law_staging_marks_the_way(
    tree: Tree,
    names: Seq<Seq<char>>,
    plan: Plan,
    id: NodeID,
    k: int,
    m: int,
)
    requires
        tree.wf(),
        tree.staged(names, plan).tree.entries.len() <= u64::MAX,
        tree.staged(names, plan).result == Ok::<NodeID, Refusal>(id),
        0 <= k <= m <= plan.hashes.len(),
    ensures
        ({
            let after = tree.staged(names, plan).tree;
            let touched = |at: int|
                after.resolve(plan.hashes.take(at)) matches Some(low) && (low >= tree.entries.len()
                    || tree.entries[low as int].node.flags.staged_delete || (plan.target is Leaf
                    && at == plan.hashes.len()));
            &&& touched(m) ==> after.dirty && (after.resolve(plan.hashes.take(k)) matches Some(i)
                && after.entries[i as int].node.flags.staged)
            &&& (forall|at: int|
                #![trigger plan.hashes.take(at)]
                0 <= at <= plan.hashes.len() ==> !touched(at)) ==> after == tree
        }),
{
    let after = tree.staged(names, plan).tree;
    let leaf = plan.target is Leaf;
    staging_done(tree, names, plan, id);
    lemma_part_resolves(after, plan.hashes, k);
    lemma_part_resolves(after, plan.hashes, m);
    assert(plan.hashes.take(plan.hashes.len() as int) =~= plan.hashes);
    let i = after.resolve(plan.hashes.take(k))->0;
    let low = after.resolve(plan.hashes.take(m))->0;
    lemma_above(after, plan.hashes, k, m, i, low);
    lemma_above(after, plan.hashes, m, plan.hashes.len() as int, low, id);
    if low >= tree.entries.len() || !tree.live(low) || (leaf && m == plan.hashes.len()) {
        assert(tree.touched_in(after, id, leaf, low) && after.within(low, i));
    }
    if exists|c: NodeID| #![trigger after.within(id, c)] tree.touched_in(after, id, leaf, c) {
        let c = choose|c: NodeID|
            #![trigger after.within(id, c)]
            tree.touched_in(after, id, leaf, c);
        let at0 = lemma_on_the_way(after, plan.hashes, id, c);
        let at = if leaf && c == id {
            plan.hashes.len() as int
        } else {
            at0
        };
        assert(after.resolve(plan.hashes.take(at)) == Some(c));
    }
}

/// Every lookup gives what it gave, or a node that is new.
pub proof fn law_staging_keeps_lookups(
    tree: Tree,
    names: Seq<Seq<char>>,
    plan: Plan,
    directory: NodeID,
    name_hash: u64,
)
    requires
        tree.wf(),
        tree.staged(names, plan).tree.entries.len() <= u64::MAX,
    ensures
        ({
            let after = tree.staged(names, plan).tree;
            after.find(directory, name_hash) == tree.find(directory, name_hash) || (after.find(
                directory,
                name_hash,
            ) matches Some(new) && new >= tree.entries.len())
        }),
{
    match tree.staged(names, plan).result {
        Ok(id) => {
            staging_done(tree, names, plan, id);
        },
        Err(_) => {
            crate::laws::law_refusal_changes_nothing(tree, names, plan);
        },
    }
}

/// A refusal says what is in the way: the root, where a leaf is wanted; or
/// the component that leads to a live node of another kind. And a path on
/// which some component leads to such a node is refused.
pub proof fn law_refusal_says_what_is_in_the_way(
    tree: Tree,
    names: Seq<Seq<char>>,
    plan: Plan,
    at: int,
)
    requires
        tree.wf(),
        tree.staged(names, plan).tree.entries.len() <= u64::MAX,
        plan.hashes.len() <= usize::MAX,
        0 <= at < plan.hashes.len(),
    ensures
        ({
            let result = tree.staged(names, plan).result;
            let leaf = plan.target is Leaf && at == plan.hashes.len() - 1;
            let blocked = tree.resolve(plan.hashes.take(at + 1)) matches Some(id)
                && !tree.entries[id as int].node.flags.staged_delete && (
            tree.entries[id as int].node.flags.link || tree.entries[id as int].node.flags.file
                != leaf);
            &&& result != Err::<NodeID, Refusal>(Refusal::RepositoryRoot)
            &&& blocked && leaf <==> result == Err::<NodeID, Refusal>(
                Refusal::NotAFile { component: at as usize },
            )
            &&& blocked && !leaf <==> result == Err::<NodeID, Refusal>(
                Refusal::NotADirectory { component: at as usize },
            )
        }),
{
    crate::laws::law_refused_exactly_when_blocked(tree, names, plan);
    let result = tree.staged(names, plan).result;
    tree.lemma_resolved_node(plan.hashes.take(at + 1));
    if result is Err {
        let other = tree.lemma_refused(ROOT_NODE, names, plan, 0);
        assert(tree.blocked_from(ROOT_NODE, plan, 0, other));
    }
    let blocked = tree.blocked_from(ROOT_NODE, plan, 0, at);
}

/// The root is refused exactly where a leaf is wanted and no name is given.
pub proof fn law_root_is_no_leaf(tree: Tree, names: Seq<Seq<char>>, plan: Plan)
    requires
        tree.wf(),
        tree.staged(names, plan).tree.entries.len() <= u64::MAX,
        plan.hashes.len() == 0,
    ensures
        tree.staged(names, plan).tree == tree,
        tree.staged(names, plan).result == if plan.target is Leaf {
            Err::<NodeID, Refusal>(Refusal::RepositoryRoot)
        } else {
            Ok(ROOT_NODE)
        },
{
}

} // verus!
