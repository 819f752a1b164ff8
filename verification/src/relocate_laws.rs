//! What deleting and moving do to each node of the tree, and what they leave
//! alone.

use vstd::prelude::*;
use crate::node::{NodeFlags, NodeID, ROOT_NODE};
use crate::relocate::MoveRefusal;
use crate::tree::{Outcome, Tree};

verus! {

/// Deleting a live node sets no flag but that of something staged, and on the
/// node and all below it that of a staged delete. Above the node only the
/// former is set, and every other record stays wholly as it was. No record
/// loses its name, its place, its kind, its content or another mark, and every
/// lookup gives what it gave.
pub proof fn law_delete_leaves_the_rest_alone(
    tree: Tree,
    hashes: Seq<u64>,
    id: NodeID,
    i: NodeID,
    directory: NodeID,
    name_hash: u64,
)
    requires
        tree.wf(),
        hashes.len() > 0,
        tree.resolve(hashes) == Some(id),
        !tree.entries[id as int].node.flags.staged_delete,
        i < tree.entries.len(),
    ensures
        ({
            let outcome = tree.deleted(hashes);
            let old = tree.entries[i as int];
            let new = outcome.tree.entries[i as int];
            let below = tree.within(i, id);
            let above = tree.within(id, i);
            &&& outcome.hidden == Some(id)
            &&& outcome.tree.entries.len() == tree.entries.len()
            &&& outcome.tree.dirty
            &&& !below && !above ==> new == old
            &&& new.parent == old.parent
            &&& new.name == old.name
            &&& new.node.name_hash == old.node.name_hash
            &&& new.node.mode == old.node.mode
            &&& new.node.size == old.node.size
            &&& new.node.address == old.node.address
            &&& new.node.reserved == old.node.reserved
            &&& new.node.flags == NodeFlags {
                file: old.node.flags.file,
                link: old.node.flags.link,
                staged: old.node.flags.staged || below || above,
                staged_add: old.node.flags.staged_add,
                staged_modify: old.node.flags.staged_modify,
                staged_delete: old.node.flags.staged_delete || below,
                staged_move: old.node.flags.staged_move,
            }
            &&& outcome.tree.find(directory, name_hash) == tree.find(directory, name_hash)
        }),
{
    tree.lemma_resolved_node(hashes);
    tree.lemma_removed_effect(id);
    tree.lemma_removed_wf(id);
    assert(tree.has(i));
    assert(tree.deleted(hashes).tree.find(directory, name_hash) == tree.find(
        directory,
        name_hash,
    ));
}

/// By paths: after a delete, whatever was at the deleted path or at one that
/// continues it is staged for deletion; what was on the way there is staged
/// and otherwise the same; and what was at any other path is wholly the same.
pub proof fn law_delete_goes_by_path(
    tree: Tree,
    hashes: Seq<u64>,
    id: NodeID,
    path: Seq<u64>,
    i: NodeID,
)
    requires
        tree.wf(),
        hashes.len() > 0,
        tree.resolve(hashes) == Some(id),
        !tree.entries[id as int].node.flags.staged_delete,
        tree.resolve(path) == Some(i),
    ensures
        ({
            let after = tree.deleted(hashes).tree;
            let old = tree.entries[i as int].node;
            let new = after.entries[i as int].node;
            &&& after.resolve(path) == Some(i)
            &&& if hashes.is_prefix_of(path) {
                new.flags.staged_delete
            } else if path.is_prefix_of(hashes) {
                new.flags.staged && new.flags.staged_delete == old.flags.staged_delete
            } else {
                after.entries[i as int] == tree.entries[i as int]
            }
        }),
{
    let after = tree.deleted(hashes).tree;
    tree.lemma_resolved_node(path);
    tree.lemma_resolved_node(hashes);
    crate::laws::law_delete_hides(tree, hashes);
    assert(after.resolve(path) == tree.resolve(path));
    law_delete_leaves_the_rest_alone(tree, hashes, id, i, ROOT_NODE, 0);
    if hashes.is_prefix_of(path) {
        let count = hashes.len() as int;
        assert(path.take(count) =~= hashes);
        assert(path.take(path.len() as int) =~= path);
        crate::staging_laws::lemma_above(tree, path, count, path.len() as int, id, i);
    } else if tree.within(i, id) {
        tree.lemma_prefix(path, hashes);
    }
    if path.is_prefix_of(hashes) {
        let count = path.len() as int;
        assert(hashes.take(count) =~= path);
        assert(hashes.take(hashes.len() as int) =~= hashes);
        crate::staging_laws::lemma_above(tree, hashes, count, hashes.len() as int, i, id);
    } else if tree.within(id, i) {
        tree.lemma_prefix(hashes, path);
    }
}

impl Tree {
    /// All that is known of a move by way of `middle`, the tree with the
    /// directories made.
    pub open spec fn moved_by_way_of(
        self,
        middle: Tree,
        after: Tree,
        from: Seq<u64>,
        names: Seq<Seq<char>>,
        to: Seq<u64>,
        id: NodeID,
        parent: NodeID,
    ) -> bool {
        &&& self.wf()
        &&& middle.wf()
        &&& after.wf()
        &&& from.len() > 0
        &&& to.len() > 0
        &&& !from.is_prefix_of(to)
        &&& !to.is_prefix_of(from)
        &&& self.resolve(from) == Some(id)
        &&& middle.resolve(from) == Some(id)
        &&& self.has(id)
        &&& self.live(id)
        &&& middle.live(id)
        &&& id != ROOT_NODE
        &&& self.kept_in(middle)
        &&& self.directories_made(middle, parent)
        &&& middle.resolve(to.drop_last()) == Some(parent)
        &&& middle.open_directory(parent)
        &&& !middle.within(parent, id)
        &&& after.resolve(to) == Some(id)
        &&& after.live(id)
        &&& middle.settle_effect(after, id, parent, names.last(), to.last())
        &&& middle.lookups_settled(after, id, parent, to.last())
    }

    /// The live node at a path.
    pub open spec fn live_at(self, hashes: Seq<u64>) -> Option<NodeID> {
        match self.resolve(hashes) {
            Some(there) if self.live(there) => Some(there),
            _ => None,
        }
    }

    /// The way up from a node outside `id` is the same where all but `id`
    /// keep their places.
    proof fn lemma_up_outside(self, after: Tree, id: NodeID, x: NodeID, steps: nat)
        requires
            self.wf(),
            self.has(x),
            !self.within(x, id),
            forall|y: NodeID|
                #![trigger self.has(y)]
                self.has(y) && y != id ==> after.parent(y) == self.parent(y),
        ensures
            after.up(x, steps) == self.up(x, steps),
        decreases steps,
    {
        if steps > 0 {
            self.lemma_within_self(id);
            self.lemma_within_parent(x, id);
            assert(self.has(self.parent(x)));
            self.lemma_up_outside(after, id, self.parent(x), (steps - 1) as nat);
        }
    }
}

#[verifier::rlimit(60)]
proof fn move_facts(
    tree: Tree,
    from: Seq<u64>,
    names: Seq<Seq<char>>,
    to: Seq<u64>,
    id: NodeID,
) -> (made: (Tree, NodeID))
    requires
        tree.wf(),
        tree.relocated(from, names, to).tree.entries.len() <= u64::MAX,
        tree.relocated(from, names, to).result == Ok::<NodeID, MoveRefusal>(id),
        from != to,
    ensures
        tree.moved_by_way_of(
            made.0,
            tree.relocated(from, names, to).tree,
            from,
            names,
            to,
            id,
            made.1,
        ),
        tree.stage_from(
            ROOT_NODE,
            names.drop_last(),
            crate::staging::directory_plan(to.drop_last()),
            0,
        ).tree == made.0,
        tree.stage_from(
            ROOT_NODE,
            names.drop_last(),
            crate::staging::directory_plan(to.drop_last()),
            0,
        ).result is Ok,
{
    let (middle, parent) = crate::laws::move_ready(tree, from, names, to);
    crate::laws::move_done(tree, from, names, to, middle, parent, id);
    directories_before_move(tree, names, to, middle, parent);
    settled_by_move(tree, from, names, to, middle, parent, id);
    outside_moved(middle, from, to, id, parent);
    (middle, parent)
}

/// The directories on the way are made before the move.
proof fn directories_before_move(
    tree: Tree,
    names: Seq<Seq<char>>,
    to: Seq<u64>,
    middle: Tree,
    parent: NodeID,
)
    requires
        tree.wf(),
        middle.wf(),
        tree.staged(names.drop_last(), crate::staging::directory_plan(to.drop_last())) == (Outcome {
            tree: middle,
            result: Ok(parent),
        }),
    ensures
        tree.directories_made(middle, parent),
{
    let plan = crate::staging::directory_plan(to.drop_last());
    tree.lemma_path_effect(ROOT_NODE, names.drop_last(), plan, 0);
    reveal(Tree::directories_made);
}

/// The directory that a node moves to is not within the node.
proof fn outside_moved(middle: Tree, from: Seq<u64>, to: Seq<u64>, id: NodeID, parent: NodeID)
    requires
        middle.wf(),
        from.len() > 0,
        to.len() > 0,
        middle.resolve(from) == Some(id),
        middle.resolve(to.drop_last()) == Some(parent),
        !from.is_prefix_of(to),
    ensures
        id != ROOT_NODE,
        !middle.within(parent, id),
{
    middle.lemma_resolved_node(from);
    if middle.within(parent, id) {
        middle.lemma_prefix(to.drop_last(), from);
        assert(from =~= to.subrange(0, from.len() as int));
    }
}

proof fn settled_by_move(
    tree: Tree,
    from: Seq<u64>,
    names: Seq<Seq<char>>,
    to: Seq<u64>,
    middle: Tree,
    parent: NodeID,
    id: NodeID,
)
    requires
        tree.relocated(from, names, to).result == Ok::<NodeID, MoveRefusal>(id),
        from != to,
        tree.staged(names.drop_last(), crate::staging::directory_plan(to.drop_last())) == (Outcome {
            tree: middle,
            result: Ok(parent),
        }),
        from.len() > 0,
        to.len() > 0,
        !from.is_prefix_of(to),
        !to.is_prefix_of(from),
        middle.wf(),
        middle.resolve(from) == Some(id),
        middle.live(id),
        middle.resolve(to.drop_last()) == Some(parent),
        middle.open_directory(parent),
    ensures
        middle.settle_effect(
            tree.relocated(from, names, to).tree,
            id,
            parent,
            names.last(),
            to.last(),
        ),
        middle.lookups_settled(tree.relocated(from, names, to).tree, id, parent, to.last()),
{
    middle.lemma_settle_effect(from, to, id, parent, names.last());
}

/// All but the moved node keep their places.
proof fn places_kept(
    middle: Tree,
    after: Tree,
    id: NodeID,
    parent: NodeID,
    name: Seq<char>,
    name_hash: u64,
)
    requires
        middle.settle_effect(after, id, parent, name, name_hash),
    ensures
        forall|y: NodeID|
            #![trigger middle.has(y)]
            middle.has(y) && y != id ==> after.parent(y) == middle.parent(y),
{
    assert forall|y: NodeID|
        #![trigger middle.has(y)]
        middle.has(y) && y != id implies after.parent(y) == middle.parent(y) by {
        middle.lemma_settled_one(after, id, parent, name, name_hash, y);
    }
}

/// Up from the directory that a node moves to, and from the node in its new
/// place, the way is the same as before the move.
#[verifier::rlimit(60)]
proof fn new_way(
    tree: Tree,
    middle: Tree,
    after: Tree,
    from: Seq<u64>,
    names: Seq<Seq<char>>,
    to: Seq<u64>,
    id: NodeID,
    parent: NodeID,
    k: int,
)
    requires
        tree.moved_by_way_of(middle, after, from, names, to, id, parent),
        0 <= k < to.len(),
    ensures
        after.resolve(to.take(k)) == middle.resolve(to.take(k)),
        after.resolve(to.take(k)) matches Some(x) && middle.has(x) && middle.within(parent, x)
            && after.within(id, x) && x != id,
{
    let way = to.drop_last();
    let back = (way.len() - k) as nat;
    after.lemma_resolve_last(ROOT_NODE, to, 0);
    after.lemma_found(after.resolve(way)->0, to.last());
    middle.lemma_settled_moved(after, id, parent, names.last(), to.last());
    places_kept(middle, after, id, parent, names.last(), to.last());
    assert(after.resolve(way) == Some(parent));
    crate::staging_laws::law_way_up_is_the_way_back(middle, way, parent, back);
    crate::staging_laws::law_way_up_is_the_way_back(after, way, parent, back);
    assert(way.take(k) =~= to.take(k));
    middle.lemma_up_outside(after, id, parent, back);
    let x = middle.up(parent, back);
    middle.lemma_up_has(parent, back);
    assert(middle.within(parent, x));
    assert(after.up(id, back + 1) == after.up(after.parent(id), back));
}

/// What lies above the directory that a node moved to lies above the node.
#[verifier::rlimit(60)]
proof fn above_new_place(
    tree: Tree,
    middle: Tree,
    after: Tree,
    from: Seq<u64>,
    names: Seq<Seq<char>>,
    to: Seq<u64>,
    id: NodeID,
    parent: NodeID,
    i: NodeID,
)
    requires
        tree.moved_by_way_of(middle, after, from, names, to, id, parent),
        middle.within(parent, i),
    ensures
        after.within(id, i),
        i != id,
{
    middle.lemma_settled_moved(after, id, parent, names.last(), to.last());
    places_kept(middle, after, id, parent, names.last(), to.last());
    let steps = choose|steps: nat| #[trigger] middle.up(parent, steps) == i;
    middle.lemma_up_outside(after, id, parent, steps);
    assert(after.up(id, steps + 1) == after.up(after.parent(id), steps));
}

/// What a move finds live in the new place was live there before the
/// directories on the way were made.
#[verifier::rlimit(60)]
proof fn same_occupant(
    tree: Tree,
    middle: Tree,
    after: Tree,
    from: Seq<u64>,
    names: Seq<Seq<char>>,
    to: Seq<u64>,
    id: NodeID,
    parent: NodeID,
)
    requires
        tree.moved_by_way_of(middle, after, from, names, to, id, parent),
    ensures
        middle.occupant(parent, to.last()) == tree.live_at(to),
        tree.live_at(to) matches Some(there) ==> tree.has(there) && there != ROOT_NODE
            && middle.resolve(to) == Some(there) && middle.live(there),
{
    middle.lemma_resolve_last(ROOT_NODE, to, 0);
    middle.lemma_found(parent, to.last());
    if let Some(there) = tree.live_at(to) {
        tree.lemma_kept_resolve(middle, ROOT_NODE, to, 0);
        tree.lemma_resolved_node(to);
        assert(tree.has(there));
    }
    if let Some(there) = middle.occupant(parent, to.last()) {
        assert(middle.has(there));
        if !tree.has(there) || !tree.live(there) {
            tree.lemma_made_one(middle, parent, there);
            assert(middle.within(parent, there));
            middle.lemma_prefix(to.drop_last(), to);
        }
        let path = crate::laws::law_every_live_node_has_a_path(tree, there);
        tree.lemma_kept_resolve(middle, ROOT_NODE, path, 0);
        crate::laws::law_one_path_per_node(middle, path, to);
    }
}

proof fn same_within(tree: Tree, middle: Tree, i: NodeID, top: NodeID)
    requires
        tree.wf(),
        tree.has(i),
        tree.kept_in(middle),
    ensures
        middle.within(i, top) == tree.within(i, top),
{
    assert forall|x: NodeID| tree.has(x) implies #[trigger] middle.parent(x) == tree.parent(x) by {}
    tree.lemma_within_same(middle, i, top);
}

/// What a move does to each node. The moved one gets its new name and hangs
/// where the new path says, it is staged as moved, and all else about it stays
/// the same. Every other one keeps its name, its place, its kind, its content
/// and the marks of having been added, modified or moved.
pub proof fn law_move_keeps_marks(
    tree: Tree,
    from: Seq<u64>,
    names: Seq<Seq<char>>,
    to: Seq<u64>,
    id: NodeID,
    i: NodeID,
)
    requires
        tree.wf(),
        tree.relocated(from, names, to).tree.entries.len() <= u64::MAX,
        tree.relocated(from, names, to).result == Ok::<NodeID, MoveRefusal>(id),
        from != to,
        i < tree.entries.len(),
    ensures
        ({
            let after = tree.relocated(from, names, to).tree;
            let old = tree.entries[i as int];
            let new = after.entries[i as int];
            &&& i < after.entries.len()
            &&& after.dirty
            &&& if i == id {
                &&& new.name == names.last()
                &&& new.node.name_hash == to.last()
                &&& after.resolve(to.drop_last()) == Some(new.parent)
                &&& new.node.flags.staged
                &&& new.node.flags.staged_move
                &&& !new.node.flags.staged_delete
            } else {
                &&& new.name == old.name
                &&& new.node.name_hash == old.node.name_hash
                &&& new.parent == old.parent
                &&& new.node.flags.staged_move == old.node.flags.staged_move
            }
            &&& new.node.flags.file == old.node.flags.file
            &&& new.node.flags.link == old.node.flags.link
            &&& new.node.flags.staged_add == old.node.flags.staged_add
            &&& new.node.flags.staged_modify == old.node.flags.staged_modify
            &&& old.node.flags.staged ==> new.node.flags.staged
            &&& new.node.mode == old.node.mode
            &&& new.node.size == old.node.size
            &&& new.node.address == old.node.address
            &&& new.node.reserved == old.node.reserved
        }),
{
    let after = tree.relocated(from, names, to).tree;
    let (middle, parent) = move_facts(tree, from, names, to, id);
    marks_kept(tree, middle, after, from, names, to, id, parent, i);
}

#[verifier::rlimit(60)]
proof fn marks_kept(
    tree: Tree,
    middle: Tree,
    after: Tree,
    from: Seq<u64>,
    names: Seq<Seq<char>>,
    to: Seq<u64>,
    id: NodeID,
    parent: NodeID,
    i: NodeID,
)
    requires
        tree.moved_by_way_of(middle, after, from, names, to, id, parent),
        tree.has(i),
    ensures
        ({
            let old = tree.entries[i as int];
            let new = after.entries[i as int];
            &&& after.has(i)
            &&& after.dirty
            &&& if i == id {
                &&& new.name == names.last()
                &&& new.node.name_hash == to.last()
                &&& after.resolve(to.drop_last()) == Some(new.parent)
                &&& new.node.flags.staged
                &&& new.node.flags.staged_move
                &&& !new.node.flags.staged_delete
            } else {
                &&& new.name == old.name
                &&& new.node.name_hash == old.node.name_hash
                &&& new.parent == old.parent
                &&& new.node.flags.staged_move == old.node.flags.staged_move
            }
            &&& new.node.flags.file == old.node.flags.file
            &&& new.node.flags.link == old.node.flags.link
            &&& new.node.flags.staged_add == old.node.flags.staged_add
            &&& new.node.flags.staged_modify == old.node.flags.staged_modify
            &&& old.node.flags.staged ==> new.node.flags.staged
            &&& crate::frame::same_content(old.node, new.node)
        }),
{
    tree.lemma_made_one(middle, parent, i);
    middle.lemma_settled_one(after, id, parent, names.last(), to.last(), i);
    middle.lemma_settled_moved(after, id, parent, names.last(), to.last());
    middle.lemma_within_self(id);
    new_way(tree, middle, after, from, names, to, id, parent, to.len() - 1);
    assert(to.take(to.len() - 1) =~= to.drop_last());
}

/// A move makes nothing live that was not, but for directories on the way to
/// the new path that had to be brought back. And it stages for deletion what
/// was live at the new path, with all below it, and nothing else.
pub proof fn law_move_revives_only_its_way(
    tree: Tree,
    from: Seq<u64>,
    names: Seq<Seq<char>>,
    to: Seq<u64>,
    id: NodeID,
    i: NodeID,
)
    requires
        tree.wf(),
        tree.relocated(from, names, to).tree.entries.len() <= u64::MAX,
        tree.relocated(from, names, to).result == Ok::<NodeID, MoveRefusal>(id),
        from != to,
        i < tree.entries.len(),
    ensures
        ({
            let after = tree.relocated(from, names, to).tree;
            let deleted = tree.entries[i as int].node.flags.staged_delete;
            let still = after.entries[i as int].node.flags.staged_delete;
            &&& deleted && !still ==> tree.entries[i as int].node.flags.file == false && exists|
                k: int,
            |
                #![trigger to.take(k)]
                1 <= k < to.len() && after.resolve(to.take(k)) == Some(i)
            &&& !deleted ==> (still <==> (tree.resolve(to) matches Some(there)
                && !tree.entries[there as int].node.flags.staged_delete && tree.within(i, there)))
        }),
{
    let after = tree.relocated(from, names, to).tree;
    let (middle, parent) = move_facts(tree, from, names, to, id);
    liveness_kept(tree, middle, after, from, names, to, id, parent, i);
}

#[verifier::rlimit(60)]
proof fn liveness_kept(
    tree: Tree,
    middle: Tree,
    after: Tree,
    from: Seq<u64>,
    names: Seq<Seq<char>>,
    to: Seq<u64>,
    id: NodeID,
    parent: NodeID,
    i: NodeID,
)
    requires
        tree.moved_by_way_of(middle, after, from, names, to, id, parent),
        tree.has(i),
    ensures
        !tree.live(i) && after.live(i) ==> !tree.node(i).flags.file && exists|k: int|
            #![trigger to.take(k)]
            1 <= k < to.len() && after.resolve(to.take(k)) == Some(i),
        tree.live(i) ==> (!after.live(i) <==> (tree.live_at(to) matches Some(there) && tree.within(
            i,
            there,
        ))),
{
    tree.lemma_made_one(middle, parent, i);
    middle.lemma_settled_one(after, id, parent, names.last(), to.last(), i);
    middle.lemma_settled_moved(after, id, parent, names.last(), to.last());
    same_occupant(tree, middle, after, from, names, to, id, parent);
    if let Some(there) = tree.live_at(to) {
        same_within(tree, middle, i, there);
    }
    if !tree.live(i) && after.live(i) {
        assert(middle.live(i));
        above_new_place(tree, middle, after, from, names, to, id, parent, i);
        let steps = choose|steps: nat| #[trigger] middle.up(parent, steps) == i;
        directory_above(middle, parent, steps);
        let k = crate::staging_laws::lemma_on_the_way(after, to, id, i);
        assert(to.take(to.len() as int) =~= to);
        if k == 0 {
            assert(to.take(0) =~= Seq::empty());
        }
        assert(1 <= k < to.len() && after.resolve(to.take(k)) == Some(i));
    }
}

/// All above a directory are directories.
proof fn directory_above(tree: Tree, id: NodeID, steps: nat)
    requires
        tree.wf(),
        tree.open_directory(id),
    ensures
        tree.node(tree.up(id, steps)).directory(),
    decreases steps,
{
    if steps > 0 {
        assert(tree.has(tree.parent(id)));
        directory_above(tree, tree.parent(id), (steps - 1) as nat);
    }
}

/// A move leaves the whole record of a node as it was, with all its flags,
/// unless the node is on the old or on the new path, or was live at the new
/// path or below it.
pub proof fn law_move_leaves_the_rest_alone(
    tree: Tree,
    from: Seq<u64>,
    names: Seq<Seq<char>>,
    to: Seq<u64>,
    id: NodeID,
    i: NodeID,
)
    requires
        tree.wf(),
        tree.relocated(from, names, to).tree.entries.len() <= u64::MAX,
        tree.relocated(from, names, to).result == Ok::<NodeID, MoveRefusal>(id),
        from != to,
        i < tree.entries.len(),
    ensures
        ({
            let after = tree.relocated(from, names, to).tree;
            ||| after.entries[i as int] == tree.entries[i as int]
            ||| exists|k: int|
                #![trigger from.take(k)]
                0 <= k <= from.len() && tree.resolve(from.take(k)) == Some(i)
            ||| exists|k: int|
                #![trigger to.take(k)]
                0 <= k < to.len() && after.resolve(to.take(k)) == Some(i)
            ||| tree.resolve(to) matches Some(there)
                && !tree.entries[there as int].node.flags.staged_delete && tree.within(i, there)
        }),
{
    let after = tree.relocated(from, names, to).tree;
    let (middle, parent) = move_facts(tree, from, names, to, id);
    record_kept(tree, middle, after, from, names, to, id, parent, i);
}

#[verifier::rlimit(60)]
proof fn record_kept(
    tree: Tree,
    middle: Tree,
    after: Tree,
    from: Seq<u64>,
    names: Seq<Seq<char>>,
    to: Seq<u64>,
    id: NodeID,
    parent: NodeID,
    i: NodeID,
)
    requires
        tree.moved_by_way_of(middle, after, from, names, to, id, parent),
        tree.has(i),
    ensures
        ({
            ||| after.entries[i as int] == tree.entries[i as int]
            ||| exists|k: int|
                #![trigger from.take(k)]
                0 <= k <= from.len() && tree.resolve(from.take(k)) == Some(i)
            ||| exists|k: int|
                #![trigger to.take(k)]
                0 <= k < to.len() && after.resolve(to.take(k)) == Some(i)
            ||| tree.live_at(to) matches Some(there) && tree.within(i, there)
        }),
{
    tree.lemma_made_one(middle, parent, i);
    middle.lemma_settled_one(after, id, parent, names.last(), to.last(), i);
    middle.lemma_settled_moved(after, id, parent, names.last(), to.last());
    same_occupant(tree, middle, after, from, names, to, id, parent);
    if let Some(there) = tree.live_at(to) {
        same_within(tree, middle, i, there);
    }
    same_within(tree, middle, id, i);
    if middle.entries[i as int] != tree.entries[i as int] {
        above_new_place(tree, middle, after, from, names, to, id, parent, i);
    }
    if tree.within(id, i) {
        let k = crate::staging_laws::lemma_on_the_way(tree, from, id, i);
        assert(0 <= k <= from.len() && tree.resolve(from.take(k)) == Some(i));
    } else if after.within(id, i) {
        tree.lemma_within_self(id);
        let k = crate::staging_laws::lemma_on_the_way(after, to, id, i);
        assert(to.take(to.len() as int) =~= to);
        assert(0 <= k < to.len() && after.resolve(to.take(k)) == Some(i));
    }
}

/// Everything above the old and the new place of a moved node is staged.
pub proof fn law_move_marks_both_ways(
    tree: Tree,
    from: Seq<u64>,
    names: Seq<Seq<char>>,
    to: Seq<u64>,
    id: NodeID,
    k: int,
)
    requires
        tree.wf(),
        tree.relocated(from, names, to).tree.entries.len() <= u64::MAX,
        tree.relocated(from, names, to).result == Ok::<NodeID, MoveRefusal>(id),
        from != to,
    ensures
        ({
            let after = tree.relocated(from, names, to).tree;
            &&& after.dirty
            &&& 0 <= k <= from.len() ==> (tree.resolve(from.take(k)) matches Some(i)
                && after.entries[i as int].node.flags.staged)
            &&& 0 <= k <= to.len() ==> (after.resolve(to.take(k)) matches Some(i)
                && after.entries[i as int].node.flags.staged)
        }),
{
    let after = tree.relocated(from, names, to).tree;
    let (middle, parent) = move_facts(tree, from, names, to, id);
    ways_marked(tree, middle, after, from, names, to, id, parent, k);
}

#[verifier::rlimit(60)]
proof fn ways_marked(
    tree: Tree,
    middle: Tree,
    after: Tree,
    from: Seq<u64>,
    names: Seq<Seq<char>>,
    to: Seq<u64>,
    id: NodeID,
    parent: NodeID,
    k: int,
)
    requires
        tree.moved_by_way_of(middle, after, from, names, to, id, parent),
    ensures
        after.dirty,
        0 <= k <= from.len() ==> (tree.resolve(from.take(k)) matches Some(i) && after.node(
            i,
        ).flags.staged),
        0 <= k <= to.len() ==> (after.resolve(to.take(k)) matches Some(i) && after.node(
            i,
        ).flags.staged),
{
    if 0 <= k <= from.len() {
        let back = (from.len() - k) as nat;
        crate::staging_laws::law_way_up_is_the_way_back(tree, from, id, back);
        let i = tree.up(id, back);
        tree.lemma_up_has(id, back);
        assert(tree.within(id, i));
        same_within(tree, middle, id, i);
        tree.lemma_made_one(middle, parent, i);
        middle.lemma_settled_one(after, id, parent, names.last(), to.last(), i);
    }
    if 0 <= k < to.len() {
        new_way(tree, middle, after, from, names, to, id, parent, k);
        let i = after.resolve(to.take(k))->0;
        middle.lemma_settled_one(after, id, parent, names.last(), to.last(), i);
    }
    if k == to.len() {
        assert(to.take(k) =~= to);
        tree.lemma_made_one(middle, parent, id);
        middle.lemma_within_self(id);
        middle.lemma_settled_one(after, id, parent, names.last(), to.last(), id);
    }
    middle.lemma_settled_moved(after, id, parent, names.last(), to.last());
}

/// What a move hides is staged.
pub proof fn law_move_marks_what_it_hides(
    tree: Tree,
    from: Seq<u64>,
    names: Seq<Seq<char>>,
    to: Seq<u64>,
    id: NodeID,
    there: NodeID,
    i: NodeID,
)
    requires
        tree.wf(),
        tree.relocated(from, names, to).tree.entries.len() <= u64::MAX,
        tree.relocated(from, names, to).result == Ok::<NodeID, MoveRefusal>(id),
        from != to,
        i < tree.entries.len(),
        tree.resolve(to) == Some(there),
        !tree.entries[there as int].node.flags.staged_delete,
        tree.within(i, there),
    ensures
        ({
            let new = tree.relocated(from, names, to).tree.entries[i as int].node;
            new.flags.staged && new.flags.staged_delete
        }),
{
    let after = tree.relocated(from, names, to).tree;
    let (middle, parent) = move_facts(tree, from, names, to, id);
    hidden_marked(tree, middle, after, from, names, to, id, parent, there, i);
}

#[verifier::rlimit(60)]
proof fn hidden_marked(
    tree: Tree,
    middle: Tree,
    after: Tree,
    from: Seq<u64>,
    names: Seq<Seq<char>>,
    to: Seq<u64>,
    id: NodeID,
    parent: NodeID,
    there: NodeID,
    i: NodeID,
)
    requires
        tree.moved_by_way_of(middle, after, from, names, to, id, parent),
        tree.has(i),
        tree.live_at(to) == Some(there),
        tree.within(i, there),
    ensures
        after.node(i).flags.staged,
        !after.live(i),
{
    tree.lemma_made_one(middle, parent, i);
    middle.lemma_settled_one(after, id, parent, names.last(), to.last(), i);
    same_occupant(tree, middle, after, from, names, to, id, parent);
    same_within(tree, middle, i, there);
}

/// After a move a lookup gives the moved node in its new place and nowhere
/// else, nothing live where it was, and elsewhere what it gave, or a directory
/// that is new.
pub proof fn law_move_keeps_lookups(
    tree: Tree,
    from: Seq<u64>,
    names: Seq<Seq<char>>,
    to: Seq<u64>,
    id: NodeID,
    directory: NodeID,
    name_hash: u64,
)
    requires
        tree.wf(),
        tree.relocated(from, names, to).tree.entries.len() <= u64::MAX,
        tree.relocated(from, names, to).result == Ok::<NodeID, MoveRefusal>(id),
        from != to,
    ensures
        ({
            let after = tree.relocated(from, names, to).tree;
            let was = tree.find(directory, name_hash);
            let is = after.find(directory, name_hash);
            let place = after.resolve(to.drop_last()) == Some(directory) && name_hash == to.last();
            &&& is == Some(id) <==> place
            &&& !place && was == Some(id) ==> (is matches Some(left)
                ==> after.entries[left as int].node.flags.staged_delete)
            &&& !place && was != Some(id) ==> is == was || (is matches Some(new) && new
                >= tree.entries.len())
        }),
{
    let after = tree.relocated(from, names, to).tree;
    let (middle, parent) = move_facts(tree, from, names, to, id);
    lookups_kept(tree, middle, after, from, names, to, id, parent, directory, name_hash);
}

#[verifier::rlimit(60)]
proof fn lookups_kept(
    tree: Tree,
    middle: Tree,
    after: Tree,
    from: Seq<u64>,
    names: Seq<Seq<char>>,
    to: Seq<u64>,
    id: NodeID,
    parent: NodeID,
    directory: NodeID,
    name_hash: u64,
)
    requires
        tree.moved_by_way_of(middle, after, from, names, to, id, parent),
    ensures
        ({
            let was = tree.find(directory, name_hash);
            let is = after.find(directory, name_hash);
            let place = after.resolve(to.drop_last()) == Some(directory) && name_hash == to.last();
            &&& is == Some(id) <==> place
            &&& !place && was == Some(id) ==> (is matches Some(left) ==> !after.live(left))
            &&& !place && was != Some(id) ==> is == was || (is matches Some(new) && !tree.has(new))
        }),
{
    let was = tree.find(directory, name_hash);
    let is = after.find(directory, name_hash);
    new_way(tree, middle, after, from, names, to, id, parent, to.len() - 1);
    assert(to.take(to.len() - 1) =~= to.drop_last());
    middle.lemma_settled_moved(after, id, parent, names.last(), to.last());
    tree.lemma_made_lookup(middle, parent, directory, name_hash);
    reveal(Tree::lookups_settled);
    let found = middle.find(directory, name_hash);
    tree.lemma_found(directory, name_hash);
    if was == Some(id) {
        tree.lemma_kept_find(middle, directory, name_hash);
    }
    if found == Some(id) && was != Some(id) {
        assert(tree.has(id));
    }
    if was == Some(id) && is is Some && is != Some(id) {
        let left = is->0;
        after.lemma_found(directory, name_hash);
        assert(middle.has(left));
        middle.lemma_settled_one(after, id, parent, names.last(), to.last(), left);
        if after.live(left) {
            assert(middle.find(middle.parent(left), middle.node(left).name_hash) == Some(left));
        }
    }
}

/// The directories that a move makes: each part of the way to the new place
/// leads to the node that it led to where all its nodes were directories, and
/// what is new bears the name of its component, hangs where the ones before
/// it lead, and is an empty directory, staged.
pub proof fn law_move_makes_directories(
    tree: Tree,
    from: Seq<u64>,
    names: Seq<Seq<char>>,
    to: Seq<u64>,
    id: NodeID,
    k: int,
)
    requires
        tree.wf(),
        tree.relocated(from, names, to).tree.entries.len() <= u64::MAX,
        tree.relocated(from, names, to).result == Ok::<NodeID, MoveRefusal>(id),
        from != to,
        names.len() == to.len(),
        0 <= k < to.len() - 1,
    ensures
        ({
            let after = tree.relocated(from, names, to).tree;
            &&& after.resolve(to.take(k + 1)) matches Some(i) && {
                let new = after.entries[i as int];
                &&& i < after.entries.len()
                &&& after.resolve(to.take(k)) == Some(new.parent)
                &&& !new.node.flags.staged_delete
                &&& i >= tree.entries.len() ==> {
                    &&& new.name == names[k]
                    &&& new.node.name_hash == to[k]
                    &&& new.node.flags == NodeFlags {
                        file: false,
                        link: false,
                        staged: true,
                        staged_add: false,
                        staged_modify: false,
                        staged_delete: false,
                        staged_move: false,
                    }
                    &&& new.node.mode == 0
                    &&& new.node.size == 0
                    &&& new.node.address.hash.high == 0
                    &&& new.node.address.hash.low == 0
                    &&& new.node.address.context.id == 0
                    &&& new.node.reserved == 0
                }
            }
            &&& (forall|j: int|
                #![trigger to.take(j + 1)]
                0 <= j <= k ==> (tree.resolve(to.take(j + 1)) matches Some(node)
                    && !tree.entries[node as int].node.flags.link
                    && !tree.entries[node as int].node.flags.file)) ==> after.resolve(
                to.take(k + 1),
            ) == tree.resolve(to.take(k + 1))
        }),
{
    let after = tree.relocated(from, names, to).tree;
    let (middle, parent) = move_facts(tree, from, names, to, id);
    let plan = crate::staging::directory_plan(to.drop_last());
    tree.lemma_stands_at(ROOT_NODE, names.drop_last(), plan, 0, k);
    directory_made(tree, middle, after, from, names, to, id, parent, k);
}

#[verifier::rlimit(60)]
proof fn directory_made(
    tree: Tree,
    middle: Tree,
    after: Tree,
    from: Seq<u64>,
    names: Seq<Seq<char>>,
    to: Seq<u64>,
    id: NodeID,
    parent: NodeID,
    k: int,
)
    requires
        tree.moved_by_way_of(middle, after, from, names, to, id, parent),
        names.len() == to.len(),
        0 <= k < to.len() - 1,
        tree.stands_at(
            middle,
            ROOT_NODE,
            names.drop_last(),
            crate::staging::directory_plan(to.drop_last()),
            0,
            k,
        ),
    ensures
        after.resolve(to.take(k + 1)) matches Some(i) && {
            let new = after.entries[i as int];
            &&& after.has(i)
            &&& after.resolve(to.take(k)) == Some(new.parent)
            &&& after.live(i)
            &&& !tree.has(i) ==> new.name == names[k] && crate::effects::newly_staged(
                new.node,
                to[k],
                None,
            )
        },
        (forall|j: int|
            #![trigger to.take(j + 1)]
            0 <= j <= k ==> (tree.resolve(to.take(j + 1)) matches Some(node)
                && !tree.entries[node as int].node.flags.link
                && !tree.entries[node as int].node.flags.file)) ==> after.resolve(to.take(k + 1))
            == tree.resolve(to.take(k + 1)),
{
    let plan = crate::staging::directory_plan(to.drop_last());
    let way = to.take(k + 1);
    assert(plan.hashes.take(k + 1) =~= way);
    new_way(tree, middle, after, from, names, to, id, parent, k + 1);
    let i = after.resolve(way)->0;
    after.lemma_resolve_last(ROOT_NODE, way, 0);
    assert(way.drop_last() =~= to.take(k));
    after.lemma_found(after.resolve(to.take(k))->0, way.last());
    middle.lemma_settled_one(after, id, parent, names.last(), to.last(), i);
    let steps = choose|steps: nat| #[trigger] after.up(id, steps) == i;
    after.lemma_resolved_node(to);
    after.lemma_live_up(id, steps);
    if forall|j: int|
        #![trigger to.take(j + 1)]
        0 <= j <= k ==> (tree.resolve(to.take(j + 1)) matches Some(node)
            && !tree.entries[node as int].node.flags.link
            && !tree.entries[node as int].node.flags.file) {
        assert forall|j: int|
            #![trigger plan.hashes.take(j + 1)]
            0 <= j <= k implies (tree.resolve_from(
            ROOT_NODE,
            plan.hashes.take(j + 1),
            0,
        ) matches Some(node) && crate::walk::suits(tree.node(node), plan.content(j))) by {
            assert(plan.hashes.take(j + 1) =~= to.take(j + 1));
        }
    }
}

/// What was there before a move and is on the way to the new place was on
/// that way before.
pub proof fn lemma_way_was_there(
    tree: Tree,
    from: Seq<u64>,
    names: Seq<Seq<char>>,
    to: Seq<u64>,
    id: NodeID,
    k: int,
    i: NodeID,
)
    requires
        tree.wf(),
        tree.relocated(from, names, to).tree.entries.len() <= u64::MAX,
        tree.relocated(from, names, to).result == Ok::<NodeID, MoveRefusal>(id),
        from != to,
        0 <= k < to.len() - 1,
        tree.relocated(from, names, to).tree.resolve(to.take(k + 1)) == Some(i),
        tree.has(i),
    ensures
        tree.resolve(to.take(k + 1)) == Some(i),
{
    let after = tree.relocated(from, names, to).tree;
    let (middle, parent) = move_facts(tree, from, names, to, id);
    let plan = crate::staging::directory_plan(to.drop_last());
    tree.lemma_stands_at(ROOT_NODE, names.drop_last(), plan, 0, k);
    assert(plan.hashes.take(k + 1) =~= to.take(k + 1));
    new_way(tree, middle, after, from, names, to, id, parent, k + 1);
}

/// A move adds nothing off the way to the new place.
pub proof fn law_move_adds_only_on_its_way(
    tree: Tree,
    from: Seq<u64>,
    names: Seq<Seq<char>>,
    to: Seq<u64>,
    id: NodeID,
    i: NodeID,
)
    requires
        tree.wf(),
        tree.relocated(from, names, to).tree.entries.len() <= u64::MAX,
        tree.relocated(from, names, to).result == Ok::<NodeID, MoveRefusal>(id),
        from != to,
        tree.entries.len() <= i < tree.relocated(from, names, to).tree.entries.len(),
    ensures
        exists|k: int|
            #![trigger to.take(k)]
            1 <= k < to.len() && tree.relocated(from, names, to).tree.resolve(to.take(k)) == Some(
                i,
            ),
{
    let after = tree.relocated(from, names, to).tree;
    let (middle, parent) = move_facts(tree, from, names, to, id);
    middle.lemma_settled_moved(after, id, parent, names.last(), to.last());
    tree.lemma_made_one(middle, parent, i);
    above_new_place(tree, middle, after, from, names, to, id, parent, i);
    let k = crate::staging_laws::lemma_on_the_way(after, to, id, i);
    assert(to.take(to.len() as int) =~= to);
    if k == 0 {
        assert(to.take(0) =~= Seq::empty());
    }
    assert(1 <= k < to.len() && after.resolve(to.take(k)) == Some(i));
}

} // verus!
