//! What staging leaves as it was.

use vstd::prelude::*;
use crate::direct_write::LeafContent;
use crate::node::{Node, NodeID, StageMark};
use crate::tree::Tree;
use crate::walk::{Edit, Plan};

verus! {

/// The facts about what a node holds are the same.
pub open spec fn same_content(a: Node, b: Node) -> bool {
    &&& a.mode == b.mode
    &&& a.size == b.size
    &&& a.address == b.address
    &&& a.reserved == b.reserved
}

/// The node holds nothing of its own and vouches for nothing.
pub open spec fn empty_content(node: Node) -> bool {
    same_content(node, Node::blank())
}

impl Tree {
    /// Every node of `self` is in `after`, under its id, its name and its
    /// parent, of the same kind, and live if it was live.
    pub open spec fn kept_in(self, after: Tree) -> bool {
        &&& self.entries.len() <= after.entries.len()
        &&& forall|id: NodeID| #[trigger]
            self.has(id) ==> {
                &&& after.parent(id) == self.parent(id)
                &&& after.entries[id as int].name == self.entries[id as int].name
                &&& after.node(id).name_hash == self.node(id).name_hash
                &&& after.node(id).file() == self.node(id).file()
                &&& after.node(id).directory() == self.node(id).directory()
                &&& self.live(id) ==> after.live(id)
            }
    }

    /// All nodes but `except` hold in `after` what they hold in `self`, and
    /// nodes that are new in `after` hold nothing.
    pub open spec fn content_kept_in(self, after: Tree, except: Option<NodeID>) -> bool {
        &&& forall|id: NodeID| #[trigger]
            self.has(id) && except != Some(id) ==> same_content(self.node(id), after.node(id))
        &&& forall|id: NodeID| #[trigger]
            after.has(id) && !self.has(id) && except != Some(id) ==> after.node(id).directory()
                && empty_content(after.node(id))
    }

    pub proof fn lemma_kept_chain(self, middle: Tree, after: Tree)
        requires
            self.kept_in(middle),
            middle.kept_in(after),
        ensures
            self.kept_in(after),
    {
        assert forall|id: NodeID| #[trigger] self.has(id) implies middle.has(id) by {}
    }

    pub proof fn lemma_content_chain(self, middle: Tree, after: Tree, except: Option<NodeID>)
        requires
            self.kept_in(middle),
            middle.kept_in(after),
            self.content_kept_in(middle, None),
            middle.content_kept_in(after, except),
        ensures
            self.content_kept_in(after, except),
    {
        assert forall|id: NodeID| #[trigger] self.has(id) implies middle.has(id) by {}
        assert forall|id: NodeID| #[trigger]
            after.has(id) && !self.has(id) && except != Some(id) implies after.node(id).directory()
            && empty_content(after.node(id)) by {
            if middle.has(id) {
                assert(same_content(middle.node(id), after.node(id)));
            }
        }
    }

    /// A live node that a lookup gives stays what the lookup gives.
    pub proof fn lemma_kept_find(self, after: Tree, parent: NodeID, name_hash: u64)
        requires
            self.wf(),
            after.wf(),
            self.kept_in(after),
            self.find(parent, name_hash) is Some,
            self.live(self.find(parent, name_hash)->0),
        ensures
            after.find(parent, name_hash) == self.find(parent, name_hash),
    {
        let id = self.find(parent, name_hash)->0;
        self.lemma_found(parent, name_hash);
        assert(self.has(id));
        assert(after.find(after.parent(id), name_hash) == Some(id));
    }

    pub proof fn lemma_marked_keeps(self, id: NodeID, mark: StageMark)
        requires
            mark !is StagedDelete,
        ensures
            self.kept_in(self.marked(id, mark)),
            self.content_kept_in(self.marked(id, mark), None),
    {
    }

    pub proof fn lemma_edited_keeps(self, id: NodeID, edit: Edit)
        requires
            self.has(id),
        ensures
            self.kept_in(self.edited(id, edit).noted()),
            self.content_kept_in(
                self.edited(id, edit).noted(),
                if edit.content is Some {
                    Some(id)
                } else {
                    None
                },
            ),
    {
    }

    /// Marking adds nothing to what has changed.
    pub proof fn lemma_marked_chain(
        self,
        middle: Tree,
        id: NodeID,
        mark: StageMark,
        except: Option<NodeID>,
    )
        requires
            mark !is StagedDelete,
            self.kept_in(middle),
            self.content_kept_in(middle, except),
        ensures
            self.kept_in(middle.marked(id, mark)),
            self.content_kept_in(middle.marked(id, mark), except),
    {
        let after = middle.marked(id, mark);
        middle.lemma_marked_keeps(id, mark);
        self.lemma_kept_chain(middle, after);
        assert forall|i: NodeID| #[trigger] self.has(i) implies middle.has(i) by {}
        assert forall|i: NodeID| #[trigger] after.has(i) implies middle.has(i) by {}
    }

    pub proof fn lemma_component_changed(
        self,
        parent: NodeID,
        name_hash: u64,
        content: Option<LeafContent>,
    )
        requires
            self.wf(),
            self.open_directory(parent),
            self.find(parent, name_hash) is Some,
            crate::walk::suits(self.node(self.find(parent, name_hash)->0), content),
        ensures
            ({
                let id = self.find(parent, name_hash)->0;
                let edit = Edit { undelete: !self.live(id), content };
                let after = self.edited(id, edit).noted().marked(
                    id,
                    crate::walk::mark_of_old(content),
                );
                &&& after.wf()
                &&& after.find(parent, name_hash) == Some(id)
                &&& after.has(id)
                &&& after.live(id)
                &&& crate::walk::suits(after.node(id), content)
                &&& after.entries.len() == self.entries.len()
                &&& self.kept_in(after)
                &&& self.content_kept_in(
                    after,
                    if content is Some {
                        Some(id)
                    } else {
                        None
                    },
                )
            }),
    {
        let id = self.find(parent, name_hash)->0;
        let edit = Edit { undelete: !self.live(id), content };
        let edited = self.edited(id, edit);
        let noted = edited.noted();
        let mark = crate::walk::mark_of_old(content);
        let after = noted.marked(id, mark);
        self.lemma_found(parent, name_hash);
        self.lemma_edited_wf(id, edit);
        self.lemma_edited_keeps(id, edit);
        edited.lemma_noted_shape();
        edited.lemma_same_shape(noted);
        noted.lemma_marked_shape(id, mark);
        noted.lemma_same_shape(after);
        self.lemma_marked_chain(
            noted,
            id,
            mark,
            if content is Some {
                Some(id)
            } else {
                None
            },
        );
        assert(noted.has(id) && after.has(id));
    }

    pub proof fn lemma_component_added(
        self,
        parent: NodeID,
        name: Seq<char>,
        name_hash: u64,
        content: Option<LeafContent>,
    )
        requires
            self.wf(),
            self.open_directory(parent),
            self.entries.len() < u64::MAX,
            self.find(parent, name_hash) matches Some(id) ==> !self.live(id),
        ensures
            ({
                let id = self.next_id();
                let after = self.added(
                    parent,
                    crate::walk::fresh(name_hash, content),
                    name,
                ).marked(id, crate::walk::mark_of_new(content));
                &&& after.wf()
                &&& after.find(parent, name_hash) == Some(id)
                &&& after.has(id)
                &&& after.live(id)
                &&& crate::walk::suits(after.node(id), content)
                &&& after.entries.len() == self.entries.len() + 1
                &&& self.kept_in(after)
                &&& self.content_kept_in(
                    after,
                    if content is Some {
                        Some(id)
                    } else {
                        None
                    },
                )
            }),
    {
        let id = self.next_id();
        let record = crate::walk::fresh(name_hash, content);
        let added = self.added(parent, record, name);
        let mark = crate::walk::mark_of_new(content);
        let after = added.marked(id, mark);
        self.lemma_vacant(parent, name_hash);
        self.lemma_added_wf(parent, record, name);
        added.lemma_marked_shape(id, mark);
        added.lemma_same_shape(after);
        self.lemma_marked_chain(
            added,
            id,
            mark,
            if content is Some {
                Some(id)
            } else {
                None
            },
        );
        assert(added.has(id) && after.has(id));
    }

    /// What one component's staging does.
    pub proof fn lemma_component(
        self,
        parent: NodeID,
        name: Seq<char>,
        name_hash: u64,
        content: Option<LeafContent>,
    )
        requires
            self.wf(),
            self.open_directory(parent),
            self.stage_component(parent, name, name_hash, content) matches Some((after, _))
                && after.entries.len() <= u64::MAX,
        ensures
            ({
                let (after, id) = self.stage_component(parent, name, name_hash, content)->0;
                &&& after.wf()
                &&& after.find(parent, name_hash) == Some(id)
                &&& after.has(id)
                &&& after.live(id)
                &&& crate::walk::suits(after.node(id), content)
                &&& after.entries.len() <= self.entries.len() + 1
                &&& self.kept_in(after)
                &&& self.content_kept_in(
                    after,
                    if content is Some {
                        Some(id)
                    } else {
                        None
                    },
                )
            }),
    {
        let found = self.find(parent, name_hash);
        self.lemma_found(parent, name_hash);
        if found is Some && crate::walk::suits(self.node(found->0), content) {
            if content is Some || !self.live(found->0) {
                self.lemma_component_changed(parent, name_hash, content);
            }
        } else {
            self.lemma_component_added(parent, name, name_hash, content);
        }
    }

    /// Staging never takes a node out.
    pub proof fn lemma_grows(self, parent: NodeID, names: Seq<Seq<char>>, plan: Plan, index: int)
        requires
            0 <= index <= plan.hashes.len(),
        ensures
            self.entries.len() <= self.stage_from(parent, names, plan, index).tree.entries.len(),
        decreases plan.hashes.len() - index,
    {
        if index < plan.hashes.len() {
            self.lemma_found(parent, plan.hashes[index]);
            if let Some((after, id)) = self.stage_component(
                parent,
                names[index],
                plan.hashes[index],
                plan.content(index),
            ) {
                after.lemma_grows(id, names, plan, index + 1);
            }
        }
    }

    /// What staging the components from `index` on does, if it succeeds.
    pub proof fn lemma_stage_from(
        self,
        parent: NodeID,
        names: Seq<Seq<char>>,
        plan: Plan,
        index: int,
    )
        requires
            self.wf(),
            self.open_directory(parent),
            0 <= index <= plan.hashes.len(),
            self.stage_from(parent, names, plan, index).tree.entries.len() <= u64::MAX,
            plan.target is Leaf ==> index < plan.hashes.len(),
        ensures
            ({
                let outcome = self.stage_from(parent, names, plan, index);
                let after = outcome.tree;
                &&& after.wf()
                &&& self.kept_in(after)
                &&& after.entries.len() <= self.entries.len() + plan.hashes.len() - index
                &&& outcome.result matches Ok(id) ==> {
                    &&& after.resolve_from(parent, plan.hashes, index) == Some(id)
                    &&& after.has(id)
                    &&& after.live(id)
                    &&& if plan.target is Leaf {
                        after.node(id).file()
                    } else {
                        after.node(id).directory()
                    }
                    &&& self.content_kept_in(
                        after,
                        if plan.target is Leaf {
                            Some(id)
                        } else {
                            None
                        },
                    )
                }
            }),
        decreases plan.hashes.len() - index,
    {
        if index < plan.hashes.len() {
            let content = plan.content(index);
            if let Some((middle, id)) = self.stage_component(
                parent,
                names[index],
                plan.hashes[index],
                content,
            ) {
                middle.lemma_grows(id, names, plan, index + 1);
                self.lemma_component(parent, names[index], plan.hashes[index], content);
                if index + 1 < plan.hashes.len() || plan.target is Directory {
                    middle.lemma_stage_from(id, names, plan, index + 1);
                    let outcome = middle.stage_from(id, names, plan, index + 1);
                    self.lemma_kept_chain(middle, outcome.tree);
                    if let Ok(last) = outcome.result {
                        let except = if plan.target is Leaf {
                            Some(last)
                        } else {
                            None
                        };
                        self.lemma_content_chain(middle, outcome.tree, except);
                        middle.lemma_kept_find(outcome.tree, parent, plan.hashes[index]);
                    }
                }
            }
        }
    }
}

} // verus!
