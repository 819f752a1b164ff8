//! What deleting and moving do to each node of a tree.

use vstd::prelude::*;
use crate::node::{Node, NodeFlags, NodeID, ROOT_NODE, StageMark};
use crate::tree::Tree;

verus! {

impl Tree {
    /// What hiding `top` and all below it made of each node.
    pub open spec fn remove_effect(self, after: Tree, top: NodeID) -> bool {
        &&& after.entries.len() == self.entries.len()
        &&& after.links == self.links
        &&& after.dirty
        &&& forall|i: NodeID|
            #![trigger self.has(i)]
            self.has(i) ==> {
                let old = self.node(i).flags;
                let hidden = self.within(i, top);
                &&& after.parent(i) == self.parent(i)
                &&& after.entries[i as int].name == self.entries[i as int].name
                &&& after.node(i) == Node {
                    flags: NodeFlags {
                        staged: old.staged || hidden || self.within(top, i),
                        staged_delete: old.staged_delete || hidden,
                        ..old
                    },
                    ..self.node(i)
                }
                &&& !hidden && !self.within(top, i) ==> after.entries[i as int]
                    == self.entries[i as int]
            }
    }

    pub proof fn lemma_removed_effect(self, top: NodeID)
        requires
            self.wf(),
            self.has(top),
        ensures
            self.remove_effect(self.removed(top), top),
    {
        self.lemma_within_self(top);
        assert forall|i: NodeID| #![trigger self.has(i)] self.has(i) implies i == top
            || self.ancestor(i, top) == self.within(top, i) by {
            if i != top && self.within(top, i) {
                let steps = choose|steps: nat| #[trigger] self.up(top, steps) == i;
                assert(steps >= 1);
            }
            if self.ancestor(i, top) {
                let steps = choose|steps: nat| steps >= 1 && #[trigger] self.up(top, steps) == i;
                assert(self.up(top, steps) == i);
            }
        }
    }

    /// What clearing a place below `parent` and moving `id` there made of each
    /// node.
    #[verifier::opaque]
    pub open spec fn settle_effect(
        self,
        after: Tree,
        id: NodeID,
        parent: NodeID,
        name: Seq<char>,
        name_hash: u64,
    ) -> bool {
        let gone = self.occupant(parent, name_hash);
        &&& after.entries.len() == self.entries.len()
        &&& after.dirty
        &&& forall|i: NodeID|
            #![trigger self.has(i)]
            self.has(i) ==> {
                let old = self.node(i).flags;
                let hidden = gone matches Some(top) && self.within(i, top);
                let marked = hidden || self.within(id, i) || after.within(id, i);
                &&& i != id ==> after.parent(i) == self.parent(i)
                &&& i != id ==> after.entries[i as int].name == self.entries[i as int].name
                &&& after.node(i) == Node {
                    flags: NodeFlags {
                        staged: old.staged || marked,
                        staged_delete: old.staged_delete || hidden,
                        staged_move: old.staged_move || i == id,
                        ..old
                    },
                    name_hash: if i == id {
                        name_hash
                    } else {
                        self.node(i).name_hash
                    },
                    ..self.node(i)
                }
                &&& !marked ==> after.entries[i as int] == self.entries[i as int]
            }
        &&& after.parent(id) == parent
        &&& after.entries[id as int].name == name
    }

    /// What lookups give once `id` hangs from `parent` under this name hash.
    #[verifier::opaque]
    pub open spec fn lookups_settled(
        self,
        after: Tree,
        id: NodeID,
        parent: NodeID,
        name_hash: u64,
    ) -> bool {
        forall|p: NodeID, h: u64|
            #![trigger after.find(p, h)]
            if p == parent && h == name_hash {
                after.find(p, h) == Some(id)
            } else {
                &&& after.find(p, h) != Some(id)
                &&& self.find(p, h) != Some(id) ==> after.find(p, h) == self.find(p, h)
            }
    }

    /// A relink changes nothing about what lies above a node outside it.
    proof fn lemma_relinked_up(
        self,
        id: NodeID,
        parent: NodeID,
        name: Seq<char>,
        name_hash: u64,
        x: NodeID,
        steps: nat,
    )
        requires
            self.wf(),
            self.has(id),
            self.has(x),
            !self.within(x, id),
        ensures
            self.relinked(id, parent, name, name_hash).up(x, steps) == self.up(x, steps),
        decreases steps,
    {
        if steps > 0 {
            self.lemma_within_self(id);
            self.lemma_within_parent(x, id);
            assert(self.has(self.parent(x)));
            self.lemma_relinked_up(
                id,
                parent,
                name,
                name_hash,
                self.parent(x),
                (steps - 1) as nat,
            );
        }
    }

    /// All above the hidden node is above the moved node's new place.
    proof fn lemma_above_gone(
        self,
        marked: Tree,
        relinked: Tree,
        id: NodeID,
        parent: NodeID,
        name: Seq<char>,
        name_hash: u64,
        top: NodeID,
        i: NodeID,
    )
        requires
            self.wf(),
            marked.wf(),
            self.has(top),
            self.parent(top) == parent,
            marked.has(parent),
            marked.has(id),
            !marked.within(parent, id),
            forall|x: NodeID| self.has(x) ==> #[trigger] marked.parent(x) == self.parent(x),
            relinked == marked.relinked(id, parent, name, name_hash),
            self.within(top, i),
            i != top,
        ensures
            relinked.within(id, i),
    {
        self.lemma_within_parent(top, i);
        assert(self.has(self.parent(top)));
        self.lemma_within_same(marked, parent, i);
        let steps = choose|steps: nat| #[trigger] marked.up(parent, steps) == i;
        marked.lemma_relinked_up(id, parent, name, name_hash, parent, steps);
        assert(relinked.parent(id) == parent);
        assert(relinked.up(id, steps + 1) == relinked.up(parent, steps));
    }

    proof fn lemma_settle_nodes(
        self,
        cleared: Tree,
        marked: Tree,
        relinked: Tree,
        after: Tree,
        id: NodeID,
        parent: NodeID,
        name: Seq<char>,
        name_hash: u64,
    )
        requires
            self.wf(),
            marked.wf(),
            self.has(id),
            match self.occupant(parent, name_hash) {
                Some(top) => self.has(top) && self.parent(top) == parent && self.remove_effect(
                    cleared,
                    top,
                ),
                None => cleared == self,
            },
            cleared.mark_effect(marked, id, StageMark::StagedMove),
            relinked == marked.relinked(id, parent, name, name_hash),
            relinked.mark_effect(after, id, StageMark::StagedMove),
            marked.has(parent),
            !marked.within(parent, id),
        ensures
            self.settle_effect(after, id, parent, name, name_hash),
    {
        reveal(Tree::settle_effect);
        let gone = self.occupant(parent, name_hash);
        self.lemma_within_self(id);
        assert(cleared.has(id) && marked.has(id) && relinked.has(id));
        assert forall|x: NodeID| self.has(x) implies #[trigger] cleared.parent(x) == self.parent(
            x,
        ) by {}
        assert forall|x: NodeID| self.has(x) implies #[trigger] marked.parent(x) == self.parent(
            x,
        ) by {
            assert(cleared.has(x));
        }
        assert forall|i: NodeID| #![trigger self.has(i)] self.has(i) implies {
            let old = self.node(i).flags;
            let hidden = gone matches Some(top) && self.within(i, top);
            let touched = hidden || self.within(id, i) || after.within(id, i);
            &&& i != id ==> after.parent(i) == self.parent(i)
            &&& i != id ==> after.entries[i as int].name == self.entries[i as int].name
            &&& after.node(i) == Node {
                flags: NodeFlags {
                    staged: old.staged || touched,
                    staged_delete: old.staged_delete || hidden,
                    staged_move: old.staged_move || i == id,
                    ..old
                },
                name_hash: if i == id {
                    name_hash
                } else {
                    self.node(i).name_hash
                },
                ..self.node(i)
            }
            &&& !touched ==> after.entries[i as int] == self.entries[i as int]
        } by {
            assert(cleared.has(i));
            assert(marked.has(i));
            assert(relinked.has(i));
            self.lemma_within_same(cleared, id, i);
            if let Some(top) = gone {
                self.lemma_within_self(top);
                if self.within(top, i) && i != top {
                    self.lemma_above_gone(
                        marked,
                        relinked,
                        id,
                        parent,
                        name,
                        name_hash,
                        top,
                        i,
                    );
                }
            }
        }
    }

    /// What settling a node in a new place does, where it can be done.
    pub proof fn lemma_settle_effect(
        self,
        from: Seq<u64>,
        to: Seq<u64>,
        id: NodeID,
        parent: NodeID,
        name: Seq<char>,
    )
        requires
            self.wf(),
            from.len() > 0,
            to.len() > 0,
            self.resolve(from) == Some(id),
            self.live(id),
            self.resolve(to.drop_last()) == Some(parent),
            self.open_directory(parent),
            !from.is_prefix_of(to),
            !to.is_prefix_of(from),
        ensures
            self.settle_effect(
                self.cleared(parent, to.last()).moved(id, parent, name, to.last()),
                id,
                parent,
                name,
                to.last(),
            ),
            self.lookups_settled(
                self.cleared(parent, to.last()).moved(id, parent, name, to.last()),
                id,
                parent,
                to.last(),
            ),
    {
        let hash = to.last();
        let cleared = self.cleared(parent, hash);
        self.lemma_resolved_node(from);
        self.lemma_cleared(from, to, id, parent);
        self.lemma_cleared_whole(parent, hash);
        cleared.lemma_moved_whole(id, parent, name, hash);
        let marked = cleared.marked(id, StageMark::StagedMove);
        let relinked = marked.relinked(id, parent, name, hash);
        self.lemma_settle_whole(
            cleared,
            marked,
            relinked,
            relinked.marked(id, StageMark::StagedMove),
            id,
            parent,
            name,
            hash,
        );
    }

    /// What clearing a place does.
    proof fn lemma_cleared_whole(self, parent: NodeID, name_hash: u64)
        requires
            self.wf(),
            self.open_directory(parent),
        ensures
            self.same_lookups(self.cleared(parent, name_hash)),
            match self.occupant(parent, name_hash) {
                Some(top) => self.has(top) && self.parent(top) == parent && self.remove_effect(
                    self.cleared(parent, name_hash),
                    top,
                ),
                None => self.cleared(parent, name_hash) == self,
            },
    {
        self.lemma_found(parent, name_hash);
        if let Some(top) = self.occupant(parent, name_hash) {
            self.lemma_removed_effect(top);
            self.lemma_removed_wf(top);
        }
    }

    /// What marking does.
    proof fn lemma_marked_whole(self, id: NodeID, mark: StageMark)
        requires
            self.wf(),
            self.has(id),
            mark !is StagedDelete,
        ensures
            self.marked(id, mark).wf(),
            self.mark_effect(self.marked(id, mark), id, mark),
            self.same_lookups(self.marked(id, mark)),
    {
        self.lemma_marked_shape(id, mark);
        self.lemma_same_shape(self.marked(id, mark));
        self.lemma_marked_effect(id, mark);
    }

    /// What moving a node to a free place does, step by step.
    proof fn lemma_moved_whole(self, id: NodeID, parent: NodeID, name: Seq<char>, name_hash: u64)
        requires
            self.wf(),
            self.has(id),
            id != ROOT_NODE,
            self.open_directory(parent),
            !self.within(parent, id),
            self.vacant(parent, name_hash),
        ensures
            ({
                let mark = StageMark::StagedMove;
                let marked = self.marked(id, mark);
                let relinked = marked.relinked(id, parent, name, name_hash);
                &&& marked.wf()
                &&& marked.has(id)
                &&& marked.has(parent)
                &&& !marked.within(parent, id)
                &&& self.mark_effect(marked, id, mark)
                &&& self.same_lookups(marked)
                &&& relinked.mark_effect(relinked.marked(id, mark), id, mark)
                &&& relinked.same_lookups(relinked.marked(id, mark))
            }),
    {
        let mark = StageMark::StagedMove;
        let marked = self.marked(id, mark);
        let relinked = marked.relinked(id, parent, name, name_hash);
        self.lemma_moved_wf(id, parent, name, name_hash);
        self.lemma_marked_whole(id, mark);
        relinked.lemma_marked_whole(id, mark);
        assert forall|x: NodeID| self.has(x) implies #[trigger] marked.parent(x) == self.parent(
            x,
        ) by {}
        self.lemma_within_same(marked, parent, id);
    }

    proof fn lemma_settle_whole(
        self,
        cleared: Tree,
        marked: Tree,
        relinked: Tree,
        after: Tree,
        id: NodeID,
        parent: NodeID,
        name: Seq<char>,
        name_hash: u64,
    )
        requires
            self.wf(),
            marked.wf(),
            self.has(id),
            marked.has(id),
            id != ROOT_NODE,
            match self.occupant(parent, name_hash) {
                Some(top) => self.has(top) && self.parent(top) == parent && self.remove_effect(
                    cleared,
                    top,
                ),
                None => cleared == self,
            },
            cleared.mark_effect(marked, id, StageMark::StagedMove),
            relinked == marked.relinked(id, parent, name, name_hash),
            relinked.mark_effect(after, id, StageMark::StagedMove),
            marked.has(parent),
            !marked.within(parent, id),
            self.same_lookups(cleared),
            cleared.same_lookups(marked),
            relinked.same_lookups(after),
        ensures
            self.settle_effect(after, id, parent, name, name_hash),
            self.lookups_settled(after, id, parent, name_hash),
    {
        self.lemma_settle_nodes(cleared, marked, relinked, after, id, parent, name, name_hash);
        self.lemma_settle_lookups(cleared, marked, relinked, after, id, parent, name, name_hash);
    }

    proof fn lemma_settle_lookups(
        self,
        cleared: Tree,
        marked: Tree,
        relinked: Tree,
        after: Tree,
        id: NodeID,
        parent: NodeID,
        name: Seq<char>,
        name_hash: u64,
    )
        requires
            marked.has(id),
            id != ROOT_NODE,
            self.same_lookups(cleared),
            cleared.same_lookups(marked),
            relinked == marked.relinked(id, parent, name, name_hash),
            relinked.same_lookups(after),
        ensures
            self.lookups_settled(after, id, parent, name_hash),
    {
        reveal(Tree::lookups_settled);
        assert forall|p: NodeID, h: u64|
            #![trigger after.find(p, h)]
            if p == parent && h == name_hash {
                after.find(p, h) == Some(id)
            } else {
                &&& after.find(p, h) != Some(id)
                &&& self.find(p, h) != Some(id) ==> after.find(p, h) == self.find(p, h)
            } by {
            marked.lemma_relinked_find(id, parent, name, name_hash, p, h);
            assert(marked.find(p, h) == cleared.find(p, h));
            assert(cleared.find(p, h) == self.find(p, h));
        }
    }
}

impl Tree {
    /// What settling made of one node.
    pub proof fn lemma_settled_one(
        self,
        after: Tree,
        id: NodeID,
        parent: NodeID,
        name: Seq<char>,
        name_hash: u64,
        i: NodeID,
    )
        requires
            self.settle_effect(after, id, parent, name, name_hash),
            self.has(i),
        ensures
            ({
                let gone = self.occupant(parent, name_hash);
                let old = self.node(i).flags;
                let hidden = gone matches Some(top) && self.within(i, top);
                let marked = hidden || self.within(id, i) || after.within(id, i);
                &&& after.has(i)
                &&& i != id ==> after.parent(i) == self.parent(i)
                &&& i != id ==> after.entries[i as int].name == self.entries[i as int].name
                &&& after.node(i) == Node {
                    flags: NodeFlags {
                        staged: old.staged || marked,
                        staged_delete: old.staged_delete || hidden,
                        staged_move: old.staged_move || i == id,
                        ..old
                    },
                    name_hash: if i == id {
                        name_hash
                    } else {
                        self.node(i).name_hash
                    },
                    ..self.node(i)
                }
                &&& !marked ==> after.entries[i as int] == self.entries[i as int]
            }),
    {
        reveal(Tree::settle_effect);
    }

    pub proof fn lemma_settled_moved(
        self,
        after: Tree,
        id: NodeID,
        parent: NodeID,
        name: Seq<char>,
        name_hash: u64,
    )
        requires
            self.settle_effect(after, id, parent, name, name_hash),
        ensures
            after.entries.len() == self.entries.len(),
            after.dirty,
            after.parent(id) == parent,
            after.entries[id as int].name == name,
    {
        reveal(Tree::settle_effect);
    }

    /// Staging the directories of a path made `after` of `self`.
    #[verifier::opaque]
    pub open spec fn directories_made(self, after: Tree, id: NodeID) -> bool {
        self.path_effect(after, id, false)
    }

    /// What making directories made of one node.
    pub proof fn lemma_made_one(self, after: Tree, id: NodeID, i: NodeID)
        requires
            self.directories_made(after, id),
        ensures
            self.entries.len() <= after.entries.len(),
            after.has(i) && !self.has(i) ==> after.within(id, i),
            self.has(i) ==> {
                &&& self.node_kept(after, i)
                &&& after.node(i).flags.staged_modify == self.node(i).flags.staged_modify
                &&& crate::frame::same_content(self.node(i), after.node(i))
                &&& after.entries[i as int] == self.entries[i as int] || after.within(id, i)
            },
    {
        reveal(Tree::directories_made);
        if self.has(i) && after.entries[i as int] != self.entries[i as int] {
            let c = choose|c: NodeID|
                #![trigger after.within(id, c)]
                self.touched_in(after, id, false, c) && after.within(c, i);
            after.lemma_within_chain(id, c, i);
        }
    }

    /// What making directories made of one lookup.
    pub proof fn lemma_made_lookup(self, after: Tree, id: NodeID, p: NodeID, h: u64)
        requires
            self.directories_made(after, id),
        ensures
            after.find(p, h) == self.find(p, h) || (after.find(p, h) matches Some(new)
                && !self.has(new)),
    {
        reveal(Tree::directories_made);
    }
}

} // verus!
