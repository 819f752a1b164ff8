//! What comes of staging a path: the leaf that is written, what stands in the
//! way, and what is used as it is.

use vstd::prelude::*;
use crate::direct_write::LeafContent;
use crate::errors::Refusal;
use crate::node::{NodeID, ROOT_NODE, StageMark, TRUSTED_CONTENT_MARKER};
use crate::tree::{Outcome, Tree};
use crate::walk::{Edit, Plan, Target};

verus! {

/// The plan of staging a leaf at a path with these name hashes.
pub open spec fn leaf_plan(hashes: Seq<u64>, content: LeafContent) -> Plan {
    Plan { hashes, target: Target::Leaf(content) }
}

/// The plan of staging a directory at a path with these name hashes.
pub open spec fn directory_plan(hashes: Seq<u64>) -> Plan {
    Plan { hashes, target: Target::Directory }
}

impl Tree {
    /// `id` holds `content` in `after` as a leaf that was staged on `self`.
    pub open spec fn leaf_written(self, after: Tree, id: NodeID, content: LeafContent) -> bool {
        let node = after.node(id);
        &&& after.has(id)
        &&& node.file()
        &&& node.live()
        &&& node.mode == content.mode
        &&& node.size == content.size
        &&& node.address.hash == content.address.hash
        &&& node.address.context == if content.address.context.zero() && self.has(id) {
            self.node(id).address.context
        } else {
            content.address.context
        }
        &&& node.reserved == TRUSTED_CONTENT_MARKER
        &&& node.flags.staged
        &&& if self.has(id) {
            node.flags.staged_modify
        } else {
            node.flags.staged_add
        }
        &&& forall|above: NodeID| #[trigger]
            after.ancestor(above, id) ==> after.node(above).flags.staged
        &&& after.dirty
    }

    pub proof fn lemma_marked_ancestors(self, id: NodeID, mark: StageMark)
        requires
            self.wf(),
            self.has(id),
        ensures
            forall|above: NodeID| #[trigger]
                self.marked(id, mark).ancestor(above, id) ==> self.marked(id, mark).node(
                    above,
                ).flags.staged,
    {
        let after = self.marked(id, mark);
        assert forall|above: NodeID| #[trigger] after.ancestor(above, id) implies after.node(
            above,
        ).flags.staged by {
            let steps = choose|steps: nat| steps >= 1 && #[trigger] after.up(id, steps) == above;
            self.lemma_up_same(after, id, steps);
            self.lemma_up_has(id, steps);
            assert(self.ancestor(above, id));
        }
    }

    pub proof fn lemma_leaf_component(
        self,
        parent: NodeID,
        name: Seq<char>,
        name_hash: u64,
        content: LeafContent,
    )
        requires
            self.wf(),
            self.open_directory(parent),
            self.stage_component(parent, name, name_hash, Some(content)) matches Some((after, _))
                && after.entries.len() <= u64::MAX,
        ensures
            ({
                let (after, id) = self.stage_component(parent, name, name_hash, Some(content))->0;
                self.leaf_written(after, id, content)
            }),
    {
        let (after, id) = self.stage_component(parent, name, name_hash, Some(content))->0;
        self.lemma_component(parent, name, name_hash, Some(content));
        let found = self.find(parent, name_hash);
        if found is Some && crate::walk::suits(self.node(found->0), Some(content)) {
            self.lemma_found(parent, name_hash);
            let edit = Edit { undelete: !self.live(id), content: Some(content) };
            let edited = self.edited(id, edit);
            self.lemma_edited_wf(id, edit);
            edited.lemma_noted_shape();
            edited.lemma_same_shape(edited.noted());
            edited.noted().lemma_marked_ancestors(id, StageMark::StagedModify);
        } else {
            self.lemma_vacant(parent, name_hash);
            let record = crate::walk::fresh(name_hash, Some(content));
            self.lemma_added_wf(parent, record, name);
            self.added(parent, record, name).lemma_marked_ancestors(id, StageMark::StagedAdd);
        }
    }

    pub proof fn lemma_leaf_from(
        self,
        parent: NodeID,
        names: Seq<Seq<char>>,
        hashes: Seq<u64>,
        content: LeafContent,
        index: int,
    )
        requires
            self.wf(),
            self.open_directory(parent),
            0 <= index < hashes.len(),
            self.stage_from(
                parent,
                names,
                leaf_plan(hashes, content),
                index,
            ).tree.entries.len() <= u64::MAX,
        ensures
            ({
                let outcome = self.stage_from(parent, names, leaf_plan(hashes, content), index);
                outcome.result matches Ok(id) ==> self.leaf_written(outcome.tree, id, content)
            }),
        decreases hashes.len() - index,
    {
        let plan = leaf_plan(hashes, content);
        let outcome = self.stage_from(parent, names, plan, index);
        if let Some((middle, next)) = self.stage_component(
            parent,
            names[index],
            hashes[index],
            plan.content(index),
        ) {
            middle.lemma_grows(next, names, plan, index + 1);
            self.lemma_component(parent, names[index], hashes[index], plan.content(index));
            if index + 1 < hashes.len() {
                middle.lemma_leaf_from(next, names, hashes, content, index + 1);
                middle.lemma_stage_from(next, names, plan, index + 1);
                if let Ok(id) = outcome.result {
                    if middle.has(id) {
                        assert(middle.node(id).file());
                        assert(self.has(id));
                        assert(self.node(id).address == middle.node(id).address);
                    } else {
                        assert(!self.has(id));
                    }
                }
            } else {
                self.lemma_leaf_component(parent, names[index], hashes[index], content);
                assert(middle.stage_from(next, names, plan, index + 1).tree == middle);
            }
        }
    }
}

impl Tree {
    /// Staging a leaf where a live file is changes that file and nothing else
    /// but the staging marks above it.
    pub proof fn lemma_restage_leaf(
        self,
        parent: NodeID,
        names: Seq<Seq<char>>,
        hashes: Seq<u64>,
        content: LeafContent,
        index: int,
    )
        requires
            self.wf(),
            0 <= index < hashes.len(),
            self.resolve_from(parent, hashes, index) is Some,
            self.live(self.resolve_from(parent, hashes, index)->0),
            self.node(self.resolve_from(parent, hashes, index)->0).file(),
        ensures
            ({
                let id = self.resolve_from(parent, hashes, index)->0;
                self.stage_from(parent, names, leaf_plan(hashes, content), index) == Outcome {
                    tree: self.edited(
                        id,
                        Edit { undelete: false, content: Some(content) },
                    ).noted().marked(id, StageMark::StagedModify),
                    result: Ok(id),
                }
            }),
        decreases hashes.len() - index,
    {
        let plan = leaf_plan(hashes, content);
        let child = self.find(parent, hashes[index])->0;
        self.lemma_found(parent, hashes[index]);
        if index + 1 < hashes.len() {
            self.lemma_resolved_from(child, hashes, index + 1);
            self.lemma_live_way(child, hashes, index + 1);
            self.lemma_restage_leaf(child, names, hashes, content, index + 1);
        } else {
            let (after, id) = self.stage_component(
                parent,
                names[index],
                hashes[index],
                plan.content(index),
            )->0;
            assert(self.resolve_from(child, hashes, index + 1) == Some(child));
            assert(after.stage_from(id, names, plan, index + 1).tree == after);
        }
    }

    /// Staging a directory where a live directory is changes nothing.
    pub proof fn lemma_restage_directory(
        self,
        parent: NodeID,
        names: Seq<Seq<char>>,
        hashes: Seq<u64>,
        index: int,
    )
        requires
            self.wf(),
            self.has(parent),
            0 <= index <= hashes.len(),
            self.resolve_from(parent, hashes, index) is Some,
            self.open_directory(self.resolve_from(parent, hashes, index)->0),
        ensures
            self.stage_from(parent, names, directory_plan(hashes), index) == (Outcome {
                tree: self,
                result: Ok(self.resolve_from(parent, hashes, index)->0),
            }),
        decreases hashes.len() - index,
    {
        if index < hashes.len() {
            let child = self.find(parent, hashes[index])->0;
            self.lemma_found(parent, hashes[index]);
            self.lemma_live_way(child, hashes, index + 1);
            self.lemma_restage_directory(child, names, hashes, index + 1);
        }
    }

    /// Below a live directory that is there already, only the last component
    /// is left to be staged.
    pub proof fn lemma_stage_last(
        self,
        parent: NodeID,
        names: Seq<Seq<char>>,
        plan: Plan,
        index: int,
    )
        requires
            self.wf(),
            self.has(parent),
            0 <= index < plan.hashes.len(),
            self.resolve_from(parent, plan.hashes.drop_last(), index) is Some,
            self.open_directory(self.resolve_from(parent, plan.hashes.drop_last(), index)->0),
        ensures
            ({
                let directory = self.resolve_from(parent, plan.hashes.drop_last(), index)->0;
                let last = plan.hashes.len() - 1;
                self.stage_from(parent, names, plan, index) == match self.stage_component(
                    directory,
                    names[last],
                    plan.hashes[last],
                    plan.content(last),
                ) {
                    Some((tree, id)) => Outcome { tree, result: Ok(id) },
                    None => Outcome {
                        tree: self,
                        result: Err(crate::walk::refusal(plan.content(last), last as usize)),
                    },
                }
            }),
        decreases plan.hashes.len() - index,
    {
        let way = plan.hashes.drop_last();
        if index < way.len() {
            let child = self.find(parent, way[index])->0;
            self.lemma_found(parent, way[index]);
            self.lemma_live_way(child, way, index + 1);
            assert(plan.hashes[index] == way[index]);
            assert(self.node(child).directory());
            self.lemma_stage_last(child, names, plan, index + 1);
        } else {
            if let Some((tree, id)) = self.stage_component(
                parent,
                names[index],
                plan.hashes[index],
                plan.content(index),
            ) {
                assert(tree.stage_from(id, names, plan, index + 1) == (Outcome {
                    tree,
                    result: Ok(id),
                }));
            }
        }
    }

    /// A component whose deleted node has the wrong kind gets a new node, and
    /// the deleted one is left alone.
    pub proof fn lemma_component_alongside(
        self,
        parent: NodeID,
        name: Seq<char>,
        name_hash: u64,
        content: Option<LeafContent>,
        id: NodeID,
    )
        requires
            self.wf(),
            self.open_directory(parent),
            self.entries.len() < u64::MAX,
            self.find(parent, name_hash) == Some(id),
            !self.live(id),
            !crate::walk::suits(self.node(id), content),
        ensures
            self.stage_component(parent, name, name_hash, content) matches Some((after, new))
                && new == self.next_id() && new != id && after.wf() && self.kept_in(after)
                && after.live(new) && crate::walk::suits(after.node(new), content)
                && after.find(parent, name_hash) == Some(new) && !after.live(id),
    {
        self.lemma_found(parent, name_hash);
        self.lemma_component_added(parent, name, name_hash, content);
    }

    /// Nothing live hangs from `id`.
    pub open spec fn barren(self, id: NodeID) -> bool {
        forall|child: NodeID|
            child != ROOT_NODE && self.has(child) && #[trigger] self.parent(child) == id
                ==> !self.live(child)
    }

    /// A component that had to be added or brought back has nothing live
    /// below it.
    pub proof fn lemma_component_barren(
        self,
        parent: NodeID,
        name: Seq<char>,
        name_hash: u64,
        content: Option<LeafContent>,
    )
        requires
            self.wf(),
            self.open_directory(parent),
            self.find(parent, name_hash) matches Some(id) ==> !self.live(id),
            self.stage_component(parent, name, name_hash, content) matches Some((after, _))
                ==> after.entries.len() <= u64::MAX,
        ensures
            self.stage_component(parent, name, name_hash, content) is Some,
            ({
                let (after, id) = self.stage_component(parent, name, name_hash, content)->0;
                after.barren(id)
            }),
    {
        let (after, id) = self.stage_component(parent, name, name_hash, content)->0;
        self.lemma_component(parent, name, name_hash, content);
        if let Some(found) = self.find(parent, name_hash) {
            self.lemma_found(parent, name_hash);
        }
        assert forall|child: NodeID|
            child != ROOT_NODE && after.has(child) && #[trigger] after.parent(child)
                == id implies !after.live(child) by {
            assert(child != id);
            if self.has(child) {
                assert(self.has(self.parent(child)));
            }
        }
    }

    /// Below a directory with nothing live in it, nothing can be in the way.
    pub proof fn lemma_barren_stage(
        self,
        parent: NodeID,
        names: Seq<Seq<char>>,
        plan: Plan,
        index: int,
    )
        requires
            self.wf(),
            self.open_directory(parent),
            self.barren(parent),
            0 <= index <= plan.hashes.len(),
            self.stage_from(parent, names, plan, index).tree.entries.len() <= u64::MAX,
        ensures
            self.stage_from(parent, names, plan, index).result is Ok,
        decreases plan.hashes.len() - index,
    {
        if index < plan.hashes.len() {
            let hash = plan.hashes[index];
            let content = plan.content(index);
            if let Some(found) = self.find(parent, hash) {
                self.lemma_found(parent, hash);
            }
            if let Some((after, id)) = self.stage_component(parent, names[index], hash, content) {
                after.lemma_grows(id, names, plan, index + 1);
            }
            self.lemma_component_barren(parent, names[index], hash, content);
            self.lemma_component(parent, names[index], hash, content);
            let (after, id) = self.stage_component(parent, names[index], hash, content)->0;
            if content is None {
                after.lemma_barren_stage(id, names, plan, index + 1);
            }
        }
    }
}

impl Tree {
    /// The component with index `at` leads to a live node that cannot stand
    /// there.
    pub open spec fn blocked_from(self, parent: NodeID, plan: Plan, index: int, at: int) -> bool {
        &&& index <= at < plan.hashes.len()
        &&& self.resolve_from(parent, plan.hashes.take(at + 1), index) matches Some(id)
            && self.live(id) && !crate::walk::suits(self.node(id), plan.content(at))
    }

    pub proof fn lemma_blocked(
        self,
        parent: NodeID,
        names: Seq<Seq<char>>,
        plan: Plan,
        index: int,
        at: int,
    )
        requires
            self.wf(),
            self.open_directory(parent),
            0 <= index,
            self.blocked_from(parent, plan, index, at),
        ensures
            self.stage_from(parent, names, plan, index).result == Err::<NodeID, Refusal>(
                crate::walk::refusal(plan.content(at), at as usize),
            ),
        decreases plan.hashes.len() - index,
    {
        let way = plan.hashes.take(at + 1);
        assert(way[index] == plan.hashes[index]);
        let child = self.find(parent, way[index])->0;
        self.lemma_found(parent, way[index]);
        if at == index {
            assert(self.resolve_from(child, way, index + 1) == Some(child));
        } else {
            self.lemma_resolved_from(child, way, index + 1);
            self.lemma_live_way(child, way, index + 1);
            self.lemma_blocked(child, names, plan, index + 1, at);
        }
    }

    /// Where nothing live is, nothing is in the way.
    pub proof fn lemma_vacant_staged(
        self,
        parent: NodeID,
        names: Seq<Seq<char>>,
        plan: Plan,
        index: int,
    )
        requires
            self.wf(),
            self.open_directory(parent),
            0 <= index < plan.hashes.len(),
            self.stage_from(parent, names, plan, index).tree.entries.len() <= u64::MAX,
            self.find(parent, plan.hashes[index]) matches Some(id) ==> !self.live(id),
        ensures
            self.stage_from(parent, names, plan, index).result is Ok,
    {
        let hash = plan.hashes[index];
        let content = plan.content(index);
        if let Some((after, id)) = self.stage_component(parent, names[index], hash, content) {
            after.lemma_grows(id, names, plan, index + 1);
        }
        self.lemma_component_barren(parent, names[index], hash, content);
        self.lemma_component(parent, names[index], hash, content);
        let (after, id) = self.stage_component(parent, names[index], hash, content)->0;
        if content is None {
            after.lemma_barren_stage(id, names, plan, index + 1);
        } else {
            assert(after.stage_from(id, names, plan, index + 1).result is Ok);
        }
    }

    pub proof fn lemma_refused(
        self,
        parent: NodeID,
        names: Seq<Seq<char>>,
        plan: Plan,
        index: int,
    ) -> (at: int)
        requires
            self.wf(),
            self.open_directory(parent),
            0 <= index <= plan.hashes.len(),
            self.stage_from(parent, names, plan, index).tree.entries.len() <= u64::MAX,
            self.stage_from(parent, names, plan, index).result is Err,
        ensures
            self.blocked_from(parent, plan, index, at),
            self.stage_from(parent, names, plan, index).tree == self,
        decreases plan.hashes.len() - index,
    {
        let hash = plan.hashes[index];
        let content = plan.content(index);
        let found = self.find(parent, hash);
        let way = plan.hashes.take(index + 1);
        assert(way[index] == hash);
        if found is None || !self.live(found->0) {
            self.lemma_vacant_staged(parent, names, plan, index);
            index
        } else {
            let child = found->0;
            self.lemma_found(parent, hash);
            assert(self.resolve_from(child, way, index + 1) == Some(child));
            if crate::walk::suits(self.node(child), content) {
                if content is Some {
                    let (after, id) = self.stage_component(
                        parent,
                        names[index],
                        hash,
                        content,
                    )->0;
                    assert(after.stage_from(id, names, plan, index + 1).result is Ok);
                    index
                } else {
                    let at = self.lemma_refused(child, names, plan, index + 1);
                    assert(plan.hashes.take(at + 1)[index] == hash);
                    at
                }
            } else {
                index
            }
        }
    }
}

} // verus!
