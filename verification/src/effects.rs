//! What staging does to each node of a tree.

use vstd::prelude::*;
use crate::direct_write::LeafContent;
use crate::node::{Node, NodeFlags, NodeID, StageMark, TRUSTED_CONTENT_MARKER};
use crate::tree::Tree;
use crate::walk::{Edit, Plan};

verus! {

/// The flags with the staging of something at or below the node added.
pub open spec fn with_staged(flags: NodeFlags, staged: bool) -> NodeFlags {
    NodeFlags { staged: flags.staged || staged, ..flags }
}

/// A record of something that was just added: a leaf with `content`, or an
/// empty directory.
pub open spec fn newly_staged(node: Node, name_hash: u64, content: Option<LeafContent>) -> bool {
    &&& node.name_hash == name_hash
    &&& node.flags.file == content is Some
    &&& !node.flags.link
    &&& node.flags.staged
    &&& node.flags.staged_add == content is Some
    &&& !node.flags.staged_modify
    &&& !node.flags.staged_delete
    &&& !node.flags.staged_move
    &&& match content {
        Some(content) => {
            &&& node.mode == content.mode
            &&& node.size == content.size
            &&& node.address == content.address
            &&& node.reserved == TRUSTED_CONTENT_MARKER
        },
        None => {
            &&& node.mode == 0
            &&& node.size == 0
            &&& node.address.hash.high == 0
            &&& node.address.hash.low == 0
            &&& node.address.context.id == 0
            &&& node.reserved == 0
        },
    }
}

impl Tree {
    /// What a node keeps whatever is staged: its place, its name, its kind and
    /// the marks that say how it got there.
    pub open spec fn node_kept(self, after: Tree, i: NodeID) -> bool {
        let old = self.node(i).flags;
        let new = after.node(i).flags;
        &&& after.has(i)
        &&& after.parent(i) == self.parent(i)
        &&& after.entries[i as int].name == self.entries[i as int].name
        &&& after.node(i).name_hash == self.node(i).name_hash
        &&& new.file == old.file
        &&& new.link == old.link
        &&& new.staged_add == old.staged_add
        &&& new.staged_move == old.staged_move
        &&& old.staged ==> new.staged
        &&& old.staged_modify ==> new.staged_modify
        &&& new.staged_delete ==> old.staged_delete
    }

    /// `c` is on the way to `id` in `after`, and is new there, was brought
    /// back, or is the leaf that was written.
    pub open spec fn touched_in(self, after: Tree, id: NodeID, leaf: bool, c: NodeID) -> bool {
        &&& after.within(id, c)
        &&& !self.has(c) || !self.live(c) || (leaf && c == id)
    }

    pub proof fn lemma_within_chain(self, low: NodeID, middle: NodeID, high: NodeID)
        requires
            self.within(low, middle),
            self.within(middle, high),
        ensures
            self.within(low, high),
    {
        let first = choose|steps: nat| #[trigger] self.up(low, steps) == middle;
        let rest = choose|steps: nat| #[trigger] self.up(middle, steps) == high;
        self.lemma_up_add(low, first, rest);
        assert(self.up(low, first + rest) == high);
    }

    /// What marking `c` made of each node.
    pub open spec fn mark_effect(self, after: Tree, c: NodeID, mark: StageMark) -> bool {
        &&& after.entries.len() == self.entries.len()
        &&& after.links == self.links
        &&& after.dirty
        &&& forall|i: NodeID|
            #![trigger self.has(i)]
            self.has(i) ==> {
                let old = self.node(i).flags;
                &&& after.within(c, i) == self.within(c, i)
                &&& after.parent(i) == self.parent(i)
                &&& after.entries[i as int].name == self.entries[i as int].name
                &&& after.node(i) == Node {
                    flags: NodeFlags {
                        staged: old.staged || self.within(c, i),
                        staged_add: old.staged_add || (i == c && mark is StagedAdd),
                        staged_modify: old.staged_modify || (i == c && mark is StagedModify),
                        staged_move: old.staged_move || (i == c && mark is StagedMove),
                        ..old
                    },
                    ..self.node(i)
                }
                &&& !self.within(c, i) ==> after.entries[i as int] == self.entries[i as int]
            }
    }

    pub proof fn lemma_marked_effect(self, c: NodeID, mark: StageMark)
        requires
            self.wf(),
            self.has(c),
            mark !is StagedDelete,
        ensures
            self.mark_effect(self.marked(c, mark), c, mark),
    {
        let after = self.marked(c, mark);
        self.lemma_within_self(c);
        assert forall|i: NodeID| #![trigger self.has(i)] self.has(i) implies {
            &&& after.within(c, i) == self.within(c, i)
            &&& i == c || self.ancestor(i, c) == self.within(c, i)
        } by {
            self.lemma_within_same(after, c, i);
            if i != c && self.within(c, i) {
                let steps = choose|steps: nat| #[trigger] self.up(c, steps) == i;
                assert(steps >= 1);
            }
            if self.ancestor(i, c) {
                let steps = choose|steps: nat| steps >= 1 && #[trigger] self.up(c, steps) == i;
                assert(self.up(c, steps) == i);
            }
        }
    }

    /// `after` is `self` with the component `c` changed or added: what that
    /// made of the nodes that were there.
    pub open spec fn others_kept(self, after: Tree, c: NodeID) -> bool {
        &&& after.dirty
        &&& self.entries.len() <= after.entries.len()
        &&& forall|i: NodeID|
            #![trigger self.has(i)]
            self.has(i) ==> {
                &&& self.node_kept(after, i)
                &&& i != c ==> after.node(i) == (Node {
                    flags: with_staged(self.node(i).flags, after.within(c, i)),
                    ..self.node(i)
                })
                &&& !after.within(c, i) ==> after.entries[i as int] == self.entries[i as int]
                &&& after.within(c, i) ==> after.node(i).flags.staged
            }
    }

    /// Every lookup gives what it gave.
    pub open spec fn same_lookups(self, after: Tree) -> bool {
        forall|p: NodeID, h: u64|
            #![trigger after.find(p, h)]
            after.find(p, h) == self.find(p, h)
    }

    /// What a rewrite for `content` made of `c`.
    pub open spec fn rewritten_in(
        self,
        after: Tree,
        c: NodeID,
        content: Option<LeafContent>,
    ) -> bool {
        &&& after.live(c)
        &&& after.node(c).flags.staged_modify == (self.node(c).flags.staged_modify
            || content is Some)
        &&& match content {
            Some(content) => {
                &&& after.node(c).mode == content.mode
                &&& after.node(c).size == content.size
                &&& after.node(c).address.hash == content.address.hash
                &&& after.node(c).address.context == if content.address.context.id == 0 {
                    self.node(c).address.context
                } else {
                    content.address.context
                }
                &&& after.node(c).reserved == TRUSTED_CONTENT_MARKER
            },
            None => crate::frame::same_content(self.node(c), after.node(c)),
        }
    }

    proof fn lemma_changed_nodes(
        self,
        noted: Tree,
        after: Tree,
        c: NodeID,
        content: Option<LeafContent>,
    )
        requires
            self.has(c),
            noted == self.edited(c, Edit { undelete: !self.live(c), content }).noted(),
            noted.mark_effect(after, c, crate::walk::mark_of_old(content)),
            noted.within(c, c),
        ensures
            self.others_kept(after, c),
            self.rewritten_in(after, c, content),
            after.entries.len() == self.entries.len(),
    {
        assert forall|i: NodeID| #![trigger self.has(i)] self.has(i) implies noted.has(i) by {}
        assert(noted.has(c));
    }

    /// What changing an existing node for its component does to each node.
    pub proof fn lemma_changed_effect(
        self,
        parent: NodeID,
        name_hash: u64,
        content: Option<LeafContent>,
    )
        requires
            self.wf(),
            self.open_directory(parent),
            self.find(parent, name_hash) is Some,
            crate::walk::suits(self.node(self.find(parent, name_hash)->0), content),
        ensures
            ({
                let c = self.find(parent, name_hash)->0;
                let edit = Edit { undelete: !self.live(c), content };
                let after = self.edited(c, edit).noted().marked(
                    c,
                    crate::walk::mark_of_old(content),
                );
                &&& self.others_kept(after, c)
                &&& self.rewritten_in(after, c, content)
                &&& after.entries.len() == self.entries.len()
                &&& self.same_lookups(after)
            }),
    {
        let c = self.find(parent, name_hash)->0;
        let edit = Edit { undelete: !self.live(c), content };
        let edited = self.edited(c, edit);
        let noted = edited.noted();
        let mark = crate::walk::mark_of_old(content);
        let after = noted.marked(c, mark);
        self.lemma_found(parent, name_hash);
        self.lemma_edited_wf(c, edit);
        edited.lemma_noted_shape();
        edited.lemma_same_shape(noted);
        noted.lemma_marked_shape(c, mark);
        noted.lemma_same_shape(after);
        noted.lemma_marked_effect(c, mark);
        noted.lemma_within_self(c);
        self.lemma_changed_nodes(noted, after, c, content);
        assert forall|p: NodeID, h: u64|
            #![trigger after.find(p, h)]
            after.find(p, h) == self.find(p, h) by {
            assert(noted.find(p, h) == edited.find(p, h));
        }
    }

    proof fn lemma_added_nodes(
        self,
        added: Tree,
        after: Tree,
        parent: NodeID,
        name: Seq<char>,
        name_hash: u64,
        content: Option<LeafContent>,
    )
        requires
            self.entries.len() < u64::MAX,
            added == self.added(parent, crate::walk::fresh(name_hash, content), name),
            added.mark_effect(after, self.next_id(), crate::walk::mark_of_new(content)),
            added.within(self.next_id(), self.next_id()),
        ensures
            self.others_kept(after, self.next_id()),
            after.entries.len() == self.entries.len() + 1,
            after.parent(self.next_id()) == parent,
            after.entries[self.next_id() as int].name == name,
            newly_staged(after.node(self.next_id()), name_hash, content),
    {
        assert forall|i: NodeID| #![trigger self.has(i)] self.has(i) implies added.has(i) by {}
        assert(added.has(self.next_id()));
    }

    /// What adding a component does to each node.
    pub proof fn lemma_added_effect(
        self,
        parent: NodeID,
        name: Seq<char>,
        name_hash: u64,
        content: Option<LeafContent>,
    )
        requires
            self.wf(),
            self.open_directory(parent),
            self.entries.len() < u64::MAX,
            self.find(parent, name_hash) matches Some(id) ==> !self.live(id),
        ensures
            ({
                let c = self.next_id();
                let after = self.added(
                    parent,
                    crate::walk::fresh(name_hash, content),
                    name,
                ).marked(c, crate::walk::mark_of_new(content));
                &&& self.others_kept(after, c)
                &&& after.entries.len() == self.entries.len() + 1
                &&& after.parent(c) == parent
                &&& after.entries[c as int].name == name
                &&& newly_staged(after.node(c), name_hash, content)
                &&& forall|p: NodeID, h: u64|
                    #![trigger after.find(p, h)]
                    after.find(p, h) == if p == parent && h == name_hash {
                        Some(c)
                    } else {
                        self.find(p, h)
                    }
            }),
    {
        let c = self.next_id();
        let record = crate::walk::fresh(name_hash, content);
        let added = self.added(parent, record, name);
        let mark = crate::walk::mark_of_new(content);
        let after = added.marked(c, mark);
        self.lemma_vacant(parent, name_hash);
        self.lemma_added_wf(parent, record, name);
        added.lemma_marked_shape(c, mark);
        added.lemma_same_shape(after);
        added.lemma_marked_effect(c, mark);
        added.lemma_within_self(c);
        self.lemma_added_nodes(added, after, parent, name, name_hash, content);
        assert forall|p: NodeID, h: u64|
            #![trigger after.find(p, h)]
            after.find(p, h) == if p == parent && h == name_hash {
                Some(c)
            } else {
                self.find(p, h)
            } by {
            self.lemma_added_find(parent, record, name, p, h);
        }
    }
}

impl Tree {
    /// Staging one component below `parent` turned `self` into `after`, where
    /// `c` stands for the component.
    pub open spec fn component_effect(
        self,
        after: Tree,
        parent: NodeID,
        name: Seq<char>,
        name_hash: u64,
        content: Option<LeafContent>,
        c: NodeID,
    ) -> bool {
        let found = self.find(parent, name_hash);
        if content is None && self.has(c) && self.live(c) {
            &&& after == self
            &&& found == Some(c)
        } else {
            &&& self.others_kept(after, c)
            &&& after.within(c, c)
            &&& if self.has(c) {
                &&& found == Some(c)
                &&& self.rewritten_in(after, c, content)
                &&& after.entries.len() == self.entries.len()
                &&& self.same_lookups(after)
            } else {
                &&& c == self.entries.len()
                &&& found matches Some(old) ==> !crate::walk::suits(self.node(old), content)
                &&& after.entries.len() == self.entries.len() + 1
                &&& after.parent(c) == parent
                &&& after.entries[c as int].name == name
                &&& newly_staged(after.node(c), name_hash, content)
                &&& forall|p: NodeID, h: u64|
                    #![trigger after.find(p, h)]
                    after.find(p, h) == if p == parent && h == name_hash {
                        Some(c)
                    } else {
                        self.find(p, h)
                    }
            }
        }
    }

    pub proof fn lemma_component_effect(
        self,
        parent: NodeID,
        name: Seq<char>,
        name_hash: u64,
        content: Option<LeafContent>,
    )
        requires
            self.wf(),
            self.open_directory(parent),
            self.stage_component(parent, name, name_hash, content) matches Some((after, _))
                && after.entries.len() <= u64::MAX,
        ensures
            ({
                let (after, c) = self.stage_component(parent, name, name_hash, content)->0;
                self.component_effect(after, parent, name, name_hash, content, c)
            }),
    {
        let (after, c) = self.stage_component(parent, name, name_hash, content)->0;
        let found = self.find(parent, name_hash);
        self.lemma_found(parent, name_hash);
        after.lemma_within_self(c);
        if found is Some && crate::walk::suits(self.node(found->0), content) {
            if content is Some || !self.live(found->0) {
                self.lemma_changed_effect(parent, name_hash, content);
            }
        } else {
            self.lemma_added_effect(parent, name, name_hash, content);
        }
    }

    /// Staging a path turned `self` into `after`, where the path leads to
    /// `id`: what that made of the nodes that were there, and where new ones
    /// are.
    pub open spec fn path_effect(self, after: Tree, id: NodeID, leaf: bool) -> bool {
        &&& self.entries.len() <= after.entries.len()
        &&& forall|i: NodeID|
            #![trigger self.has(i)]
            self.has(i) ==> {
                &&& self.node_kept(after, i)
                &&& after.node(i).flags.staged_modify == (self.node(i).flags.staged_modify || (leaf
                    && i == id))
                &&& !(leaf && i == id) ==> crate::frame::same_content(self.node(i), after.node(i))
                &&& after.entries[i as int] == self.entries[i as int] || exists|c: NodeID|
                    #![trigger after.within(id, c)]
                    self.touched_in(after, id, leaf, c) && after.within(c, i)
            }
        &&& forall|c: NodeID, i: NodeID|
            #![trigger after.within(id, c), after.within(c, i)]
            self.touched_in(after, id, leaf, c) && after.within(c, i)
                ==> after.node(i).flags.staged
        &&& forall|i: NodeID|
            #![trigger after.has(i)]
            after.has(i) && !self.has(i) ==> after.within(id, i)
        &&& if exists|c: NodeID|
            #![trigger after.within(id, c)]
            self.touched_in(after, id, leaf, c) {
            after.dirty
        } else {
            after == self
        }
        &&& forall|p: NodeID, h: u64|
            #![trigger after.find(p, h)]
            after.find(p, h) == self.find(p, h) || (after.find(p, h) matches Some(new) && !self.has(
                new,
            ))
    }

    /// The effect of a path that ends with the component `c`.
    proof fn lemma_effect_last(
        self,
        after: Tree,
        parent: NodeID,
        name: Seq<char>,
        name_hash: u64,
        content: Option<LeafContent>,
        c: NodeID,
    )
        requires
            self.wf(),
            after.wf(),
            after.has(c),
            self.component_effect(after, parent, name, name_hash, content, c),
            content is Some,
        ensures
            self.path_effect(after, c, true),
    {
        assert forall|d: NodeID, i: NodeID|
            #![trigger after.within(c, d), after.within(d, i)]
            self.touched_in(after, c, true, d) && after.within(d, i) implies after.node(
            i,
        ).flags.staged by {
            after.lemma_within_chain(c, d, i);
            let steps = choose|steps: nat| #[trigger] after.up(c, steps) == i;
            after.lemma_up_has(c, steps);
            if !self.has(i) {
                assert(i == c);
            }
        }
        assert(self.touched_in(after, c, true, c));
        assert forall|i: NodeID| #![trigger self.has(i)] self.has(i) implies after.entries[i as int]
            == self.entries[i as int] || exists|d: NodeID|
            #![trigger after.within(c, d)]
            self.touched_in(after, c, true, d) && after.within(d, i) by {
            if after.within(c, i) {
                assert(self.touched_in(after, c, true, c) && after.within(c, i));
            }
        }
    }

    /// A path of live directories that are all there changes nothing.
    proof fn lemma_effect_none(self, id: NodeID)
        requires
            self.wf(),
            self.open_directory(id),
        ensures
            self.path_effect(self, id, false),
    {
        assert forall|c: NodeID| #![trigger self.within(id, c)] self.within(id, c) implies self.has(
            c,
        ) && self.live(c) by {
            let steps = choose|steps: nat| #[trigger] self.up(id, steps) == c;
            self.lemma_up_has(id, steps);
            self.lemma_live_up(id, steps);
        }
    }
}

impl Tree {
    /// What was done for a directory on the way is part of what was done for
    /// the path.
    proof fn lemma_touched_chain(self, middle: Tree, after: Tree, c: NodeID, id: NodeID, leaf: bool)
        requires
            self.wf(),
            middle.wf(),
            middle.has(c),
            self.others_kept(middle, c),
            !self.has(c) || !self.live(c),
            middle.entries.len() <= self.entries.len() + 1,
            !self.has(c) ==> c == self.entries.len() && middle.node(c).flags.staged,
            self.has(c) ==> middle.entries.len() == self.entries.len(),
            middle.path_effect(after, id, leaf),
            after.within(id, c),
        ensures
            self.touched_in(after, id, leaf, c),
            forall|d: NodeID|
                #![trigger after.within(id, d)]
                middle.touched_in(after, id, leaf, d) ==> self.touched_in(after, id, leaf, d),
            forall|d: NodeID|
                #![trigger after.within(id, d)]
                self.touched_in(after, id, leaf, d) ==> middle.touched_in(after, id, leaf, d) || d
                    == c,
            forall|i: NodeID|
                #![trigger after.within(c, i)]
                after.within(c, i) == middle.within(c, i),
            forall|i: NodeID|
                #![trigger after.within(c, i)]
                after.within(c, i) ==> after.node(i).flags.staged,
    {
        assert forall|i: NodeID|
            #![trigger after.parent(i)]
            middle.has(i) implies after.parent(i) == middle.parent(i) by {
            assert(middle.node_kept(after, i));
        }
        assert forall|i: NodeID|
            #![trigger after.within(c, i)]
            after.within(c, i) == middle.within(c, i) by {
            middle.lemma_within_same(after, c, i);
        }
        assert forall|i: NodeID|
            #![trigger after.within(c, i)]
            after.within(c, i) implies after.node(i).flags.staged by {
            let steps = choose|steps: nat| #[trigger] middle.up(c, steps) == i;
            middle.lemma_up_has(c, steps);
            assert(middle.node_kept(after, i));
            if self.has(i) {
                assert(middle.node(i).flags.staged);
            }
        }
        assert forall|d: NodeID|
            #![trigger after.within(id, d)]
            middle.touched_in(after, id, leaf, d) implies self.touched_in(after, id, leaf, d) by {
            if self.has(d) {
                assert(self.node_kept(middle, d));
            }
        }
        assert forall|d: NodeID|
            #![trigger after.within(id, d)]
            self.touched_in(after, id, leaf, d) implies middle.touched_in(after, id, leaf, d) || d
            == c by {
            if self.has(d) && d != c {
                assert(middle.live(d) == self.live(d));
            }
        }
    }

    /// The effect of a directory and of the path below it make the effect of
    /// the path.
    proof fn lemma_effect_chain(
        self,
        middle: Tree,
        after: Tree,
        parent: NodeID,
        name: Seq<char>,
        name_hash: u64,
        c: NodeID,
        id: NodeID,
        leaf: bool,
    )
        requires
            self.wf(),
            middle.wf(),
            middle.has(c),
            self.component_effect(middle, parent, name, name_hash, None, c),
            middle.path_effect(after, id, leaf),
            after.within(id, c),
        ensures
            self.path_effect(after, id, leaf),
    {
        if middle != self {
            self.lemma_touched_chain(middle, after, c, id, leaf);
            assert forall|i: NodeID| #![trigger self.has(i)] self.has(i) implies {
                &&& self.node_kept(after, i)
                &&& after.node(i).flags.staged_modify == (self.node(i).flags.staged_modify || (leaf
                    && i == id))
                &&& !(leaf && i == id) ==> crate::frame::same_content(self.node(i), after.node(i))
                &&& after.entries[i as int] == self.entries[i as int] || exists|d: NodeID|
                    #![trigger after.within(id, d)]
                    self.touched_in(after, id, leaf, d) && after.within(d, i)
            } by {
                assert(self.node_kept(middle, i));
                assert(middle.has(i));
                assert(middle.node_kept(after, i));
                if after.entries[i as int] != self.entries[i as int] {
                    if middle.entries[i as int] != self.entries[i as int] {
                        assert(middle.within(c, i));
                        assert(after.within(c, i));
                        assert(self.touched_in(after, id, leaf, c) && after.within(c, i));
                    } else {
                        let d = choose|d: NodeID|
                            #![trigger after.within(id, d)]
                            middle.touched_in(after, id, leaf, d) && after.within(d, i);
                        assert(self.touched_in(after, id, leaf, d) && after.within(d, i));
                    }
                }
            }
            assert forall|i: NodeID|
                #![trigger after.has(i)]
                after.has(i) && !self.has(i) implies after.within(id, i) by {
                if middle.has(i) {
                    assert(i == c);
                }
            }
        }
    }

    /// Where a path leads is below where each of its directories is.
    pub proof fn lemma_resolved_within(self, at: NodeID, hashes: Seq<u64>, index: int)
        requires
            0 <= index <= hashes.len(),
            self.resolve_from(at, hashes, index) is Some,
        ensures
            self.within(self.resolve_from(at, hashes, index)->0, at),
        decreases hashes.len() - index,
    {
        if index < hashes.len() {
            let child = self.find(at, hashes[index])->0;
            let id = self.resolve_from(at, hashes, index)->0;
            self.lemma_found(at, hashes[index]);
            self.lemma_resolved_within(child, hashes, index + 1);
            self.lemma_within_self(at);
            if child != at {
                self.lemma_within_parent(child, at);
            }
            self.lemma_within_chain(id, child, at);
        } else {
            self.lemma_within_self(at);
        }
    }

    /// What staging the components from `index` on does to each node, if it
    /// succeeds.
    pub proof fn lemma_path_effect(
        self,
        parent: NodeID,
        names: Seq<Seq<char>>,
        plan: Plan,
        index: int,
    )
        requires
            self.wf(),
            self.open_directory(parent),
            0 <= index <= plan.hashes.len(),
            self.stage_from(parent, names, plan, index).tree.entries.len() <= u64::MAX,
            self.stage_from(parent, names, plan, index).result is Ok,
            plan.target is Leaf ==> index < plan.hashes.len(),
        ensures
            ({
                let outcome = self.stage_from(parent, names, plan, index);
                self.path_effect(outcome.tree, outcome.result->Ok_0, plan.target is Leaf)
            }),
        decreases plan.hashes.len() - index,
    {
        if index == plan.hashes.len() {
            self.lemma_effect_none(parent);
        } else {
            let content = plan.content(index);
            let (middle, c) = self.stage_component(
                parent,
                names[index],
                plan.hashes[index],
                content,
            )->0;
            let outcome = middle.stage_from(c, names, plan, index + 1);
            middle.lemma_grows(c, names, plan, index + 1);
            self.lemma_component(parent, names[index], plan.hashes[index], content);
            self.lemma_component_effect(parent, names[index], plan.hashes[index], content);
            if content is Some {
                assert(outcome.tree == middle);
                self.lemma_effect_last(
                    middle,
                    parent,
                    names[index],
                    plan.hashes[index],
                    content,
                    c,
                );
            } else {
                let id = outcome.result->Ok_0;
                middle.lemma_stage_from(c, names, plan, index + 1);
                middle.lemma_path_effect(c, names, plan, index + 1);
                outcome.tree.lemma_resolved_within(c, plan.hashes, index + 1);
                self.lemma_effect_chain(
                    middle,
                    outcome.tree,
                    parent,
                    names[index],
                    plan.hashes[index],
                    c,
                    id,
                    plan.target is Leaf,
                );
            }
        }
    }
}

impl Tree {
    /// The components from `index` up to `k` are all there, in kinds that can
    /// stand where they are.
    pub open spec fn way_suits(self, parent: NodeID, plan: Plan, index: int, k: int) -> bool {
        forall|j: int|
            #![trigger plan.hashes.take(j + 1)]
            index <= j <= k ==> (self.resolve_from(
                parent,
                plan.hashes.take(j + 1),
                index,
            ) matches Some(id) && crate::walk::suits(self.node(id), plan.content(j)))
    }

    /// What stands for the component with index `k` after a path was staged.
    pub open spec fn stands_at(
        self,
        after: Tree,
        parent: NodeID,
        names: Seq<Seq<char>>,
        plan: Plan,
        index: int,
        k: int,
    ) -> bool {
        let way = plan.hashes.take(k + 1);
        &&& after.resolve_from(parent, way, index) matches Some(i) && {
            &&& after.has(i)
            &&& self.has(i) ==> self.resolve_from(parent, way, index) == Some(i)
            &&& !self.has(i) ==> after.entries[i as int].name == names[k] && newly_staged(
                after.node(i),
                plan.hashes[k],
                plan.content(k),
            )
            &&& self.way_suits(parent, plan, index, k) ==> self.has(i)
        }
    }

    /// Nothing hangs from a node that is not there.
    proof fn lemma_no_children(self, at: NodeID, name_hash: u64)
        requires
            self.wf(),
            !self.has(at),
        ensures
            self.find(at, name_hash) is None,
    {
        self.lemma_found(at, name_hash);
        if let Some(child) = self.find(at, name_hash) {
            assert(self.has(self.parent(child)));
        }
    }

    /// The component at `index` itself, once the rest of the path is staged
    /// too.
    proof fn lemma_stands_here(
        self,
        middle: Tree,
        after: Tree,
        parent: NodeID,
        names: Seq<Seq<char>>,
        plan: Plan,
        index: int,
        c: NodeID,
    )
        requires
            0 <= index < plan.hashes.len(),
            self.component_effect(
                middle,
                parent,
                names[index],
                plan.hashes[index],
                plan.content(index),
                c,
            ),
            middle.has(c),
            middle.wf(),
            after.wf(),
            middle.live(c),
            middle.find(parent, plan.hashes[index]) == Some(c),
            middle.kept_in(after),
            after.entries[c as int].name == middle.entries[c as int].name,
            !self.has(c) ==> newly_staged(after.node(c), plan.hashes[index], plan.content(index)),
        ensures
            self.stands_at(after, parent, names, plan, index, index),
    {
        let way = plan.hashes.take(index + 1);
        assert(way[index] == plan.hashes[index]);
        middle.lemma_kept_find(after, parent, plan.hashes[index]);
        assert(after.resolve_from(c, way, index + 1) == Some(c));
        assert(self.resolve_from(c, way, index + 1) == Some(c));
        if self.way_suits(parent, plan, index, index) {
            let found = self.find(parent, plan.hashes[index])->0;
            assert(self.resolve_from(found, way, index + 1) == Some(found));
        }
    }

    /// A component further down.
    proof fn lemma_stands_below(
        self,
        middle: Tree,
        after: Tree,
        parent: NodeID,
        names: Seq<Seq<char>>,
        plan: Plan,
        index: int,
        k: int,
        c: NodeID,
    )
        requires
            0 <= index < k < plan.hashes.len(),
            self.wf(),
            self.component_effect(
                middle,
                parent,
                names[index],
                plan.hashes[index],
                plan.content(index),
                c,
            ),
            middle.has(c),
            middle.wf(),
            after.wf(),
            middle.live(c),
            middle.find(parent, plan.hashes[index]) == Some(c),
            middle.kept_in(after),
            middle.stands_at(after, c, names, plan, index + 1, k),
        ensures
            self.stands_at(after, parent, names, plan, index, k),
    {
        let way = plan.hashes.take(k + 1);
        assert(way[index] == plan.hashes[index]);
        assert(way[index + 1] == plan.hashes[index + 1]);
        middle.lemma_kept_find(after, parent, plan.hashes[index]);
        let i = after.resolve_from(parent, way, index)->0;
        if self.has(c) {
            assert forall|p: NodeID, h: u64|
                #![trigger middle.find(p, h)]
                middle.find(p, h) == self.find(p, h) by {}
            self.lemma_same_resolve(middle, c, way, index + 1);
        } else {
            self.lemma_no_children(c, way[index + 1]);
            assert(c != parent) by {
                middle.lemma_found(parent, plan.hashes[index]);
                middle.lemma_parent_outside(c);
                middle.lemma_within_self(c);
            }
            assert(middle.find(c, way[index + 1]) is None);
        }
        if self.way_suits(parent, plan, index, k) {
            let first = plan.hashes.take(index + 1);
            let found = self.find(parent, plan.hashes[index])->0;
            assert(first[index] == plan.hashes[index]);
            assert(self.resolve_from(found, first, index + 1) == Some(found));
            assert(self.has(c));
            assert forall|j: int|
                #![trigger plan.hashes.take(j + 1)]
                index + 1 <= j <= k implies (middle.resolve_from(
                c,
                plan.hashes.take(j + 1),
                index + 1,
            ) matches Some(id) && crate::walk::suits(middle.node(id), plan.content(j))) by {
                let part = plan.hashes.take(j + 1);
                assert(part[index] == plan.hashes[index]);
                self.lemma_same_resolve(middle, c, part, index + 1);
                self.lemma_resolved_from(c, part, index + 1);
                let id = self.resolve_from(c, part, index + 1)->0;
                if middle != self {
                    assert(self.node_kept(middle, id));
                }
            }
        }
    }

    pub proof fn lemma_stands_at(
        self,
        parent: NodeID,
        names: Seq<Seq<char>>,
        plan: Plan,
        index: int,
        k: int,
    )
        requires
            self.wf(),
            self.open_directory(parent),
            0 <= index <= k < plan.hashes.len(),
            self.stage_from(parent, names, plan, index).tree.entries.len() <= u64::MAX,
            self.stage_from(parent, names, plan, index).result is Ok,
        ensures
            self.stands_at(
                self.stage_from(parent, names, plan, index).tree,
                parent,
                names,
                plan,
                index,
                k,
            ),
        decreases plan.hashes.len() - index,
    {
        let content = plan.content(index);
        let (middle, c) = self.stage_component(
            parent,
            names[index],
            plan.hashes[index],
            content,
        )->0;
        let outcome = middle.stage_from(c, names, plan, index + 1);
        let after = outcome.tree;
        middle.lemma_grows(c, names, plan, index + 1);
        self.lemma_component(parent, names[index], plan.hashes[index], content);
        self.lemma_component_effect(parent, names[index], plan.hashes[index], content);
        if index + 1 < plan.hashes.len() {
            middle.lemma_stage_from(c, names, plan, index + 1);
            middle.lemma_path_effect(c, names, plan, index + 1);
            assert(middle.node_kept(after, c));
        } else {
            assert(after == middle);
        }
        if k == index {
            self.lemma_stands_here(middle, after, parent, names, plan, index, c);
        } else {
            middle.lemma_stands_at(c, names, plan, index + 1, k);
            self.lemma_stands_below(middle, after, parent, names, plan, index, k, c);
        }
    }
}

} // verus!
