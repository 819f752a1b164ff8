//! Deleting and moving on the mathematical tree.

use vstd::prelude::*;
use crate::errors::Refusal;
use crate::node::{Node, NodeID, ROOT_NODE, StageMark};
use crate::tree::{Entry, Tree};
use crate::walk::{Plan, Target};

verus! {

/// Why a node cannot be moved as asked.
pub enum MoveRefusal {
    /// One of the paths has no component.
    RepositoryRoot,
    /// Nothing live is there to be moved.
    NotFound,
    /// One of the paths lies within the other.
    Nested,
    /// A directory on the way to the new place cannot be staged.
    Refused(Refusal),
}

/// How a move ended.
pub struct MoveOutcome {
    pub tree: Tree,
    pub result: Result<NodeID, MoveRefusal>,
}

/// How a delete ended: the tree it left, and the node that was hidden.
pub struct DeleteOutcome {
    pub tree: Tree,
    pub hidden: Option<NodeID>,
}

impl Tree {
    /// `id` is `top` or lies below it.
    pub open spec fn within(self, id: NodeID, top: NodeID) -> bool {
        exists|steps: nat| #[trigger] self.up(id, steps) == top
    }

    /// The tree with a node and all below it staged for deletion, and
    /// everything above the node staged.
    pub open spec fn removed(self, id: NodeID) -> Tree {
        Tree {
            entries: Seq::new(
                self.entries.len(),
                |i: int|
                    {
                        let entry = self.entries[i];
                        if self.within(i as NodeID, id) {
                            Entry { node: entry.node.marked(StageMark::StagedDelete), ..entry }
                        } else if self.ancestor(i as NodeID, id) {
                            Entry { node: entry.node.marked(StageMark::Staged), ..entry }
                        } else {
                            entry
                        }
                    },
            ),
            dirty: true,
            ..self
        }
    }

    /// The tree with a node hung from `parent` under another name.
    pub open spec fn relinked(
        self,
        id: NodeID,
        parent: NodeID,
        name: Seq<char>,
        name_hash: u64,
    ) -> Tree {
        Tree {
            entries: self.entries.update(
                id as int,
                Entry { node: Node { name_hash, ..self.node(id) }, parent, name },
            ),
            links: self.links.push(id),
            ..self
        }
    }

    /// The tree with a node moved, and everything above its old and its new
    /// place staged.
    pub open spec fn moved(
        self,
        id: NodeID,
        parent: NodeID,
        name: Seq<char>,
        name_hash: u64,
    ) -> Tree {
        self.marked(id, StageMark::StagedMove).relinked(id, parent, name, name_hash).marked(
            id,
            StageMark::StagedMove,
        )
    }

    /// What deleting the path with these name hashes does: nothing, unless a
    /// live node is there.
    pub open spec fn deleted(self, hashes: Seq<u64>) -> DeleteOutcome {
        match self.resolve(hashes) {
            Some(id) if self.live(id) => DeleteOutcome { tree: self.removed(id), hidden: Some(id) },
            _ => DeleteOutcome { tree: self, hidden: None },
        }
    }

    /// The live child of `parent` with this name hash.
    pub open spec fn occupant(self, parent: NodeID, name_hash: u64) -> Option<NodeID> {
        match self.find(parent, name_hash) {
            Some(id) if self.live(id) => Some(id),
            _ => None,
        }
    }

    /// The tree with the place below `parent` cleared of a live node.
    pub open spec fn cleared(self, parent: NodeID, name_hash: u64) -> Tree {
        match self.occupant(parent, name_hash) {
            Some(id) => self.removed(id),
            None => self,
        }
    }

    /// The moved node `id` apart, all of `self` is in `after` in its place and
    /// under its name, and live unless it is within `gone`.
    pub open spec fn left_by_move(self, after: Tree, id: NodeID, gone: Option<NodeID>) -> bool {
        &&& self.entries.len() <= after.entries.len()
        &&& forall|i: NodeID| #[trigger]
            self.has(i) ==> {
                &&& after.node(i).file() == self.node(i).file()
                &&& after.node(i).directory() == self.node(i).directory()
                &&& crate::frame::same_content(self.node(i), after.node(i))
                &&& self.live(i) ==> (after.live(i) <==> !(gone matches Some(there)
                    && self.within(i, there)))
                &&& i != id ==> {
                    &&& after.parent(i) == self.parent(i)
                    &&& after.entries[i as int].name == self.entries[i as int].name
                    &&& after.node(i).name_hash == self.node(i).name_hash
                }
            }
    }

    /// What moving from one path to another does.
    pub open spec fn relocated(
        self,
        from: Seq<u64>,
        names: Seq<Seq<char>>,
        to: Seq<u64>,
    ) -> MoveOutcome {
        let source = self.resolve(from);
        if from.len() == 0 || to.len() == 0 {
            MoveOutcome { tree: self, result: Err(MoveRefusal::RepositoryRoot) }
        } else if source is None || !self.live(source->0) {
            MoveOutcome { tree: self, result: Err(MoveRefusal::NotFound) }
        } else if from == to {
            MoveOutcome { tree: self, result: Ok(source->0) }
        } else if from.is_prefix_of(to) || to.is_prefix_of(from) {
            MoveOutcome { tree: self, result: Err(MoveRefusal::Nested) }
        } else {
            let directories = self.staged(
                names.drop_last(),
                Plan { hashes: to.drop_last(), target: Target::Directory },
            );
            match directories.result {
                Ok(parent) => MoveOutcome {
                    tree: directories.tree.cleared(parent, to.last()).moved(
                        source->0,
                        parent,
                        names.last(),
                        to.last(),
                    ),
                    result: Ok(source->0),
                },
                Err(refusal) => MoveOutcome {
                    tree: directories.tree,
                    result: Err(MoveRefusal::Refused(refusal)),
                },
            }
        }
    }

    pub proof fn lemma_within_self(self, id: NodeID)
        ensures
            self.within(id, id),
    {
        assert(self.up(id, 0) == id);
    }

    /// A node other than `top` is within `top` exactly when its parent is.
    pub proof fn lemma_within_parent(self, id: NodeID, top: NodeID)
        requires
            id != top,
        ensures
            self.within(id, top) == self.within(self.parent(id), top),
    {
        if self.within(id, top) {
            let steps = choose|steps: nat| #[trigger] self.up(id, steps) == top;
            assert(steps > 0);
            assert(self.up(self.parent(id), (steps - 1) as nat) == top);
        }
        if self.within(self.parent(id), top) {
            let steps = choose|steps: nat| #[trigger] self.up(self.parent(id), steps) == top;
            assert(self.up(id, steps + 1) == top);
        }
    }

    pub proof fn lemma_root_within(self, top: NodeID)
        requires
            self.wf(),
        ensures
            self.within(ROOT_NODE, top) == (top == ROOT_NODE),
    {
        if self.within(ROOT_NODE, top) {
            let steps = choose|steps: nat| #[trigger] self.up(ROOT_NODE, steps) == top;
            self.lemma_up_root(steps);
        }
        self.lemma_within_self(ROOT_NODE);
    }

    pub proof fn lemma_within_rank(self, id: NodeID, top: NodeID, steps: nat, rank: Seq<nat>)
        requires
            self.wf(),
            self.ranked(rank),
            self.has(id),
            self.up(id, steps) == top,
        ensures
            rank[top as int] <= rank[id as int],
        decreases steps,
    {
        if steps > 0 {
            if id == ROOT_NODE {
                self.lemma_up_root(steps);
            } else {
                assert(self.has(self.parent(id)));
                self.lemma_within_rank(self.parent(id), top, (steps - 1) as nat, rank);
            }
        }
    }

    /// No node hangs from something within itself.
    pub proof fn lemma_parent_outside(self, id: NodeID)
        requires
            self.wf(),
            self.has(id),
            id != ROOT_NODE,
        ensures
            !self.within(self.parent(id), id),
    {
        if self.within(self.parent(id), id) {
            let rank = choose|rank: Seq<nat>| self.ranked(rank);
            let steps = choose|steps: nat| #[trigger] self.up(self.parent(id), steps) == id;
            assert(self.has(self.parent(id)));
            self.lemma_within_rank(self.parent(id), id, steps, rank);
        }
    }

    pub proof fn lemma_removed_wf(self, id: NodeID)
        requires
            self.wf(),
            self.has(id),
            id != ROOT_NODE,
        ensures
            self.removed(id).wf(),
            forall|parent: NodeID, name_hash: u64| #[trigger]
                self.removed(id).find(parent, name_hash) == self.find(parent, name_hash),
    {
        let after = self.removed(id);
        self.lemma_root_within(id);
        assert(self.has(ROOT_NODE));
        assert forall|parent: NodeID, name_hash: u64| #[trigger]
            after.find(parent, name_hash) == self.find(parent, name_hash) by {
            self.lemma_same_find(after, parent, name_hash);
        }
        assert forall|i: NodeID| i != ROOT_NODE && after.has(i) && after.live(i) implies after.find(
            #[trigger] after.parent(i), after.node(i).name_hash) == Some(i) by {
            assert(self.find(self.parent(i), self.node(i).name_hash) == Some(i));
        }
        assert forall|i: NodeID| after.has(i) implies after.has(#[trigger] after.parent(i))
            && after.node(after.parent(i)).directory() by {
            assert(self.has(self.parent(i)));
        }
        assert forall|i: NodeID| after.has(i) && after.live(i) implies after.live(
            #[trigger] after.parent(i),
        ) by {
            assert(self.has(self.parent(i)));
            if i == id {
                self.lemma_within_self(id);
            } else {
                self.lemma_within_parent(i, id);
            }
        }
        let rank = choose|rank: Seq<nat>| self.ranked(rank);
        assert(after.ranked(rank)) by {
            assert forall|i: NodeID| i != ROOT_NODE && after.has(i) implies rank[
                #[trigger] after.parent(i) as int] < rank[i as int] by {
                assert(self.parent(i) == after.parent(i));
            }
        }
    }

    /// A lookup in the new place gives the moved node, and one elsewhere what
    /// it gave, unless that was the moved node.
    pub proof fn lemma_relinked_find(
        self,
        id: NodeID,
        parent: NodeID,
        name: Seq<char>,
        name_hash: u64,
        p: NodeID,
        h: u64,
    )
        requires
            self.has(id),
            id != ROOT_NODE,
        ensures
            ({
                let after = self.relinked(id, parent, name, name_hash);
                if p == parent && h == name_hash {
                    after.find(p, h) == Some(id)
                } else {
                    &&& after.find(p, h) != Some(id)
                    &&& self.find(p, h) != Some(id) ==> after.find(p, h) == self.find(p, h)
                }
            }),
    {
        let after = self.relinked(id, parent, name, name_hash);
        let last = self.links.len() as int;
        reveal(Tree::find);
        assert(after.links[last] == id);
        after.lemma_found(p, h);
        assert forall|i: NodeID| i != id implies after.matches(i, p, h) == #[trigger] self.matches(
            i,
            p,
            h,
        ) by {}
        if p == parent && h == name_hash {
            assert(after.latest(last, p, h));
            after.lemma_find(last, p, h);
        } else {
            assert(!after.matches(id, p, h));
            if self.find(p, h) is Some && self.find(p, h) != Some(id) {
                let position = choose|position: int| self.latest(position, p, h);
                assert(after.links[position] == self.links[position]);
                assert forall|later: int|
                    position < later < after.links.len() implies !after.matches(
                    #[trigger] after.links[later],
                    p,
                    h,
                ) by {
                    if later < last {
                        assert(after.links[later] == self.links[later]);
                    }
                }
                assert(after.latest(position, p, h));
                after.lemma_find(position, p, h);
            } else if self.find(p, h) is None && after.find(p, h) is Some {
                let position = choose|position: int| after.latest(position, p, h);
                assert(position < last);
                assert(after.links[position] == self.links[position]);
                assert forall|later: int|
                    position < later < self.links.len() implies !self.matches(
                    #[trigger] self.links[later],
                    p,
                    h,
                ) by {
                    assert(after.links[later] == self.links[later]);
                    if self.matches(self.links[later], p, h) {
                        self.lemma_some_match(later, p, h);
                    }
                }
                assert(self.latest(position, p, h));
            }
        }
    }

    pub proof fn lemma_relinked_wf(
        self,
        id: NodeID,
        parent: NodeID,
        name: Seq<char>,
        name_hash: u64,
    )
        requires
            self.wf(),
            self.has(id),
            id != ROOT_NODE,
            self.open_directory(parent),
            !self.within(parent, id),
            self.vacant(parent, name_hash),
        ensures
            self.relinked(id, parent, name, name_hash).wf(),
    {
        let after = self.relinked(id, parent, name, name_hash);
        assert(self.has(ROOT_NODE));
        assert forall|i: NodeID| i != ROOT_NODE && after.has(i) && after.live(i) implies after.find(
            #[trigger] after.parent(i), after.node(i).name_hash) == Some(i) by {
            self.lemma_relinked_find(
                id,
                parent,
                name,
                name_hash,
                after.parent(i),
                after.node(i).name_hash,
            );
            if i != id {
                assert(self.find(self.parent(i), self.node(i).name_hash) == Some(i));
                assert(self.matches(i, self.parent(i), self.node(i).name_hash));
            }
        }
        assert forall|i: NodeID| after.has(i) implies after.has(#[trigger] after.parent(i))
            && after.node(after.parent(i)).directory() by {
            assert(self.has(self.parent(i)));
        }
        assert forall|i: NodeID| after.has(i) && after.live(i) implies after.live(
            #[trigger] after.parent(i),
        ) by {
            assert(self.has(self.parent(i)));
        }
        let rank = choose|rank: Seq<nat>| self.ranked(rank);
        let rank2 = Seq::new(
            rank.len(),
            |i: int|
                if self.within(i as NodeID, id) {
                    rank[i] + rank[parent as int] + 1
                } else {
                    rank[i]
                },
        );
        assert(after.ranked(rank2)) by {
            assert forall|i: NodeID| i != ROOT_NODE && after.has(i) implies rank2[
                #[trigger] after.parent(i) as int] < rank2[i as int] by {
                assert(self.has(self.parent(i)));
                if i == id {
                    self.lemma_within_self(id);
                } else {
                    assert(after.parent(i) == self.parent(i));
                    self.lemma_within_parent(i, id);
                }
            }
        }
    }

    pub proof fn lemma_within_same(self, after: Tree, id: NodeID, top: NodeID)
        requires
            self.wf(),
            self.has(id),
            forall|i: NodeID| self.has(i) ==> #[trigger] after.parent(i) == self.parent(i),
        ensures
            after.within(id, top) == self.within(id, top),
    {
        if after.within(id, top) {
            let steps = choose|steps: nat| #[trigger] after.up(id, steps) == top;
            self.lemma_up_same(after, id, steps);
        }
        if self.within(id, top) {
            let steps = choose|steps: nat| #[trigger] self.up(id, steps) == top;
            self.lemma_up_same(after, id, steps);
        }
    }

    /// Clearing the new place of a node that is to be moved leaves the node
    /// and the directory it goes to.
    pub proof fn lemma_cleared(
        self,
        from: Seq<u64>,
        to: Seq<u64>,
        id: NodeID,
        parent: NodeID,
    )
        requires
            self.wf(),
            from.len() > 0,
            to.len() > 0,
            self.resolve(from) == Some(id),
            self.live(id),
            self.resolve(to.drop_last()) == Some(parent),
            self.open_directory(parent),
            !from.is_prefix_of(to),
            !to.is_prefix_of(from),
        ensures
            ({
                let cleared = self.cleared(parent, to.last());
                &&& cleared.wf()
                &&& cleared.has(id)
                &&& id != ROOT_NODE
                &&& cleared.live(id)
                &&& cleared.open_directory(parent)
                &&& !cleared.within(parent, id)
                &&& cleared.vacant(parent, to.last())
                &&& self.find(parent, to.last()) matches Some(there) ==> self.has(there) && there
                    != ROOT_NODE
            }),
    {
        let hash = to.last();
        let cleared = self.cleared(parent, hash);
        self.lemma_resolved_node(from);
        if self.within(parent, id) {
            self.lemma_prefix(to.drop_last(), from);
            assert(from =~= to.subrange(0, from.len() as int));
        }
        self.lemma_resolve_last(ROOT_NODE, to, 0);
        let found = self.find(parent, hash);
        self.lemma_found(parent, hash);
        if found is Some && self.live(found->0) {
            let there = found->0;
            self.lemma_removed_wf(there);
            if self.within(id, there) {
                self.lemma_prefix(from, to);
            }
            self.lemma_parent_outside(there);
            assert forall|other: NodeID| #[trigger]
                cleared.matches(other, parent, hash) implies !cleared.live(other) by {
                assert(self.matches(other, parent, hash));
                if self.live(other) {
                    assert(self.find(self.parent(other), hash) == Some(other));
                    self.lemma_within_self(there);
                }
            }
            self.lemma_within_same(cleared, parent, id);
        } else {
            self.lemma_vacant(parent, hash);
        }
    }

    /// Moving a node to a free place in a directory outside it keeps the tree
    /// well formed.
    pub proof fn lemma_moved_wf(
        self,
        id: NodeID,
        parent: NodeID,
        name: Seq<char>,
        name_hash: u64,
    )
        requires
            self.wf(),
            self.has(id),
            id != ROOT_NODE,
            self.open_directory(parent),
            !self.within(parent, id),
            self.vacant(parent, name_hash),
        ensures
            self.marked(id, StageMark::StagedMove).relinked(id, parent, name, name_hash).wf(),
            self.moved(id, parent, name, name_hash).wf(),
    {
        let mark = StageMark::StagedMove;
        let marked = self.marked(id, mark);
        let relinked = marked.relinked(id, parent, name, name_hash);
        self.lemma_marked_shape(id, mark);
        self.lemma_same_shape(marked);
        assert(marked.has(parent));
        self.lemma_within_same(marked, parent, id);
        assert forall|other: NodeID| #[trigger]
            marked.matches(other, parent, name_hash) implies !marked.live(other) by {
            assert(marked.has(other));
            assert(self.matches(other, parent, name_hash));
        }
        marked.lemma_relinked_wf(id, parent, name, name_hash);
        relinked.lemma_marked_shape(id, mark);
        relinked.lemma_same_shape(relinked.marked(id, mark));
    }

    /// What clearing a place does to each node.
    pub proof fn lemma_cleared_nodes(self, parent: NodeID, name_hash: u64)
        ensures
            ({
                let after = self.cleared(parent, name_hash);
                &&& after.entries.len() == self.entries.len()
                &&& forall|i: NodeID| #[trigger]
                    self.has(i) ==> {
                        &&& after.parent(i) == self.parent(i)
                        &&& after.entries[i as int].name == self.entries[i as int].name
                        &&& after.node(i).name_hash == self.node(i).name_hash
                        &&& after.node(i).file() == self.node(i).file()
                        &&& after.node(i).directory() == self.node(i).directory()
                        &&& crate::frame::same_content(self.node(i), after.node(i))
                        &&& after.live(i) == (self.live(i) && !(self.occupant(
                            parent,
                            name_hash,
                        ) matches Some(there) && self.within(i, there)))
                    }
            }),
    {
    }

    /// What moving a node does to each node.
    pub proof fn lemma_moved_nodes(
        self,
        id: NodeID,
        parent: NodeID,
        name: Seq<char>,
        name_hash: u64,
    )
        requires
            self.has(id),
        ensures
            ({
                let after = self.moved(id, parent, name, name_hash);
                &&& after.entries.len() == self.entries.len()
                &&& after.parent(id) == parent
                &&& after.entries[id as int].name == name
                &&& after.node(id).name_hash == name_hash
                &&& after.node(id).flags.staged_move
                &&& after.dirty
                &&& forall|i: NodeID| #[trigger]
                    self.has(i) ==> {
                        &&& after.node(i).file() == self.node(i).file()
                        &&& after.node(i).directory() == self.node(i).directory()
                        &&& crate::frame::same_content(self.node(i), after.node(i))
                        &&& after.live(i) == self.live(i)
                        &&& i != id ==> {
                            &&& after.parent(i) == self.parent(i)
                            &&& after.entries[i as int].name == self.entries[i as int].name
                            &&& after.node(i).name_hash == self.node(i).name_hash
                        }
                    }
            }),
    {
    }

    /// All above a directory outside the moved and the hidden nodes keeps its
    /// place and stays live.
    proof fn lemma_way_carried(
        self,
        after: Tree,
        id: NodeID,
        gone: Option<NodeID>,
        directory: NodeID,
    )
        requires
            self.wf(),
            self.open_directory(directory),
            !self.within(directory, id),
            gone matches Some(there) ==> !self.within(directory, there),
            self.left_by_move(after, id, gone),
        ensures
            forall|i: NodeID| #[trigger]
                self.within(directory, i) ==> {
                    &&& after.has(i)
                    &&& after.live(i)
                    &&& after.parent(i) == self.parent(i)
                    &&& after.node(i).name_hash == self.node(i).name_hash
                },
    {
        assert forall|i: NodeID| #[trigger] self.within(directory, i) implies {
            &&& after.has(i)
            &&& after.live(i)
            &&& after.parent(i) == self.parent(i)
            &&& after.node(i).name_hash == self.node(i).name_hash
        } by {
            let steps = choose|steps: nat| #[trigger] self.up(directory, steps) == i;
            self.lemma_up_has(directory, steps);
            self.lemma_live_up(directory, steps);
            assert(i != id);
            if let Some(there) = gone {
                if self.within(i, there) {
                    let more = choose|more: nat| #[trigger] self.up(i, more) == there;
                    self.lemma_up_add(directory, steps, more);
                }
            }
        }
    }

    /// All above a live node is live.
    pub proof fn lemma_live_up(self, id: NodeID, steps: nat)
        requires
            self.wf(),
            self.has(id),
            self.live(id),
        ensures
            self.live(self.up(id, steps)),
        decreases steps,
    {
        if steps > 0 {
            assert(self.has(self.parent(id)));
            self.lemma_live_up(self.parent(id), (steps - 1) as nat);
        }
    }

    /// What clearing a place and moving a node there does to each node.
    proof fn lemma_settled_nodes(
        self,
        id: NodeID,
        parent: NodeID,
        name: Seq<char>,
        name_hash: u64,
    )
        requires
            self.has(id),
        ensures
            ({
                let after = self.cleared(parent, name_hash).moved(id, parent, name, name_hash);
                &&& self.left_by_move(after, id, self.occupant(parent, name_hash))
                &&& after.entries.len() == self.entries.len()
                &&& after.parent(id) == parent
                &&& after.node(id).name_hash == name_hash
                &&& after.entries[id as int].name == name
                &&& after.node(id).flags.staged_move
                &&& after.dirty
                &&& forall|i: NodeID| #[trigger]
                    after.has(i) && after.live(i) ==> self.live(i)
            }),
    {
        let cleared = self.cleared(parent, name_hash);
        self.lemma_cleared_nodes(parent, name_hash);
        assert(cleared.has(id));
        cleared.lemma_moved_nodes(id, parent, name, name_hash);
        assert forall|i: NodeID| #[trigger] self.has(i) implies cleared.has(i) by {}
        assert forall|i: NodeID| #[trigger]
            cleared.moved(id, parent, name, name_hash).has(i) implies cleared.has(i) && self.has(
            i,
        ) by {}
    }

    /// The path to a directory outside the moved and the hidden nodes leads to
    /// it still.
    proof fn lemma_directory_carried(
        self,
        after: Tree,
        hashes: Seq<u64>,
        id: NodeID,
        gone: Option<NodeID>,
        directory: NodeID,
    )
        requires
            self.wf(),
            after.wf(),
            self.resolve(hashes) == Some(directory),
            self.open_directory(directory),
            !self.within(directory, id),
            gone matches Some(there) ==> !self.within(directory, there),
            self.left_by_move(after, id, gone),
        ensures
            after.resolve(hashes) == Some(directory),
    {
        self.lemma_way_carried(after, id, gone, directory);
        self.lemma_resolve_carried(after, ROOT_NODE, hashes, 0, directory);
    }

    /// A moved node is found where it went.
    pub proof fn lemma_settled_there(
        self,
        from: Seq<u64>,
        to: Seq<u64>,
        id: NodeID,
        parent: NodeID,
        name: Seq<char>,
    )
        requires
            self.wf(),
            from.len() > 0,
            to.len() > 0,
            self.resolve(from) == Some(id),
            self.live(id),
            self.resolve(to.drop_last()) == Some(parent),
            self.open_directory(parent),
            !from.is_prefix_of(to),
            !to.is_prefix_of(from),
        ensures
            ({
                let after = self.cleared(parent, to.last()).moved(id, parent, name, to.last());
                &&& after.wf()
                &&& after.live(id)
                &&& after.resolve(to) == Some(id)
                &&& self.left_by_move(after, id, self.occupant(parent, to.last()))
            }),
    {
        let hash = to.last();
        let cleared = self.cleared(parent, hash);
        let after = cleared.moved(id, parent, name, hash);
        let gone = self.occupant(parent, hash);
        self.lemma_cleared(from, to, id, parent);
        cleared.lemma_moved_wf(id, parent, name, hash);
        self.lemma_resolved_node(from);
        self.lemma_settled_nodes(id, parent, name, hash);
        cleared.lemma_moved_nodes(id, parent, name, hash);
        self.lemma_cleared_nodes(parent, hash);
        assert(cleared.has(id));
        self.lemma_within_same(cleared, parent, id);
        if let Some(there) = gone {
            self.lemma_found(parent, hash);
            self.lemma_parent_outside(there);
        }
        self.lemma_directory_carried(after, to.drop_last(), id, gone, parent);
        after.lemma_resolve_last(ROOT_NODE, to, 0);
        assert(after.find(after.parent(id), after.node(id).name_hash) == Some(id));
    }

    /// A moved node is not found where it was.
    pub proof fn lemma_settled_gone(
        self,
        from: Seq<u64>,
        to: Seq<u64>,
        id: NodeID,
        parent: NodeID,
        name: Seq<char>,
    )
        requires
            self.wf(),
            from.len() > 0,
            to.len() > 0,
            self.resolve(from) == Some(id),
            self.live(id),
            self.resolve(to.drop_last()) == Some(parent),
            self.open_directory(parent),
            !from.is_prefix_of(to),
            !to.is_prefix_of(from),
        ensures
            ({
                let after = self.cleared(parent, to.last()).moved(id, parent, name, to.last());
                after.resolve(from) matches Some(left) ==> left != id && !after.live(left)
            }),
    {
        let hash = to.last();
        let after = self.cleared(parent, hash).moved(id, parent, name, hash);
        let gone = self.occupant(parent, hash);
        self.lemma_settled_there(from, to, id, parent, name);
        self.lemma_resolved_node(from);
        self.lemma_settled_nodes(id, parent, name, hash);
        self.lemma_resolve_last(ROOT_NODE, from, 0);
        let source = self.resolve(from.drop_last())->0;
        self.lemma_found(source, from.last());
        self.lemma_parent_outside(id);
        assert(self.open_directory(self.parent(id)));
        if let Some(there) = gone {
            self.lemma_resolve_last(ROOT_NODE, to, 0);
            if self.within(source, there) {
                self.lemma_within_self(there);
                if id != there {
                    self.lemma_within_parent(id, there);
                }
                self.lemma_prefix(from, to);
            }
        }
        self.lemma_directory_carried(after, from.drop_last(), id, gone, source);
        after.lemma_resolve_last(ROOT_NODE, from, 0);
        after.lemma_found(source, from.last());
        if let Some(left) = after.find(source, from.last()) {
            assert(self.find(self.parent(id), self.node(id).name_hash) == Some(id));
            if left == id {
                assert(gone == Some(id));
                self.lemma_within_self(id);
            } else if after.live(left) {
                assert(self.has(left));
                assert(self.find(self.parent(left), self.node(left).name_hash) == Some(left));
            }
        }
    }
}

} // verus!
