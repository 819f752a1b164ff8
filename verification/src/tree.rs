//! The mathematical picture of a revision tree, and what staging means on it.

use vstd::prelude::*;
use crate::direct_write::LeafContent;
use crate::errors::Refusal;
use crate::node::{Node, NodeID, ROOT_NODE, StageMark};
use crate::walk::{Edit, Plan};

verus! {

/// A node with its place in the tree.
pub struct Entry {
    pub node: Node,
    pub parent: NodeID,
    pub name: Seq<char>,
}

/// A tree: its entries, each under the id that is its index, the ids in the
/// order in which nodes were given their places, and whether there are
/// changes that no store has yet.
pub struct Tree {
    pub entries: Seq<Entry>,
    pub links: Seq<NodeID>,
    pub dirty: bool,
}

impl Tree {
    pub open spec fn has(self, id: NodeID) -> bool {
        id < self.entries.len()
    }

    pub open spec fn node(self, id: NodeID) -> Node {
        self.entries[id as int].node
    }

    pub open spec fn parent(self, id: NodeID) -> NodeID {
        self.entries[id as int].parent
    }

    pub open spec fn live(self, id: NodeID) -> bool {
        self.node(id).live()
    }

    /// A directory that is not staged for deletion.
    pub open spec fn open_directory(self, id: NodeID) -> bool {
        self.has(id) && self.live(id) && self.node(id).directory()
    }

    /// The node `steps` levels above `id`. Above the root is the root.
    pub open spec fn up(self, id: NodeID, steps: nat) -> NodeID
        decreases steps,
    {
        if steps == 0 {
            id
        } else {
            self.up(self.parent(id), (steps - 1) as nat)
        }
    }

    /// `above` lies on the way from `id` to the root, at least one level up.
    pub open spec fn ancestor(self, above: NodeID, id: NodeID) -> bool {
        exists|steps: nat| steps >= 1 && #[trigger] self.up(id, steps) == above
    }

    /// `id` is a child of `parent` and goes by this name hash.
    pub open spec fn matches(self, id: NodeID, parent: NodeID, name_hash: u64) -> bool {
        &&& id != ROOT_NODE
        &&& self.has(id)
        &&& self.parent(id) == parent
        &&& self.node(id).name_hash == name_hash
    }

    /// The match that was given its place last stands at `position`.
    pub open spec fn latest(self, position: int, parent: NodeID, name_hash: u64) -> bool {
        &&& 0 <= position < self.links.len()
        &&& self.matches(self.links[position], parent, name_hash)
        &&& forall|later: int|
            position < later < self.links.len() ==> !self.matches(
                #[trigger] self.links[later],
                parent,
                name_hash,
            )
    }

    /// The child of `parent` with this name hash, the latest if there are
    /// several.
    #[verifier::opaque]
    pub open spec fn find(self, parent: NodeID, name_hash: u64) -> Option<NodeID> {
        if exists|position: int| self.latest(position, parent, name_hash) {
            Some(self.links[choose|position: int| self.latest(position, parent, name_hash)])
        } else {
            None
        }
    }

    /// What the name hashes from `index` on lead to, starting below `parent`.
    pub open spec fn resolve_from(self, parent: NodeID, hashes: Seq<u64>, index: int) -> Option<
        NodeID,
    >
        decreases hashes.len() - index,
    {
        if index < 0 || index >= hashes.len() {
            Some(parent)
        } else {
            match self.find(parent, hashes[index]) {
                Some(id) => self.resolve_from(id, hashes, index + 1),
                None => None,
            }
        }
    }

    /// What a path with these name hashes leads to.
    pub open spec fn resolve(self, hashes: Seq<u64>) -> Option<NodeID> {
        self.resolve_from(ROOT_NODE, hashes, 0)
    }

    /// `rank` grows from every parent to its children.
    pub open spec fn ranked(self, rank: Seq<nat>) -> bool {
        &&& rank.len() == self.entries.len()
        &&& forall|id: NodeID|
            id != ROOT_NODE && self.has(id) ==> rank[#[trigger] self.parent(id) as int]
                < rank[id as int]
    }

    /// What holds of every tree: there is a live root directory that all
    /// nodes hang from, only directories have children, what hangs from a
    /// node staged for deletion is staged for deletion too, and a lookup by
    /// the name of a live node gives that node. So no two live children of
    /// one directory share a name hash.
    pub open spec fn wf(self) -> bool {
        &&& 1 <= self.entries.len() <= u64::MAX
        &&& self.parent(ROOT_NODE) == ROOT_NODE
        &&& self.open_directory(ROOT_NODE)
        &&& forall|id: NodeID|
            self.has(id) ==> self.has(#[trigger] self.parent(id)) && self.node(
                self.parent(id),
            ).directory()
        &&& forall|id: NodeID|
            self.has(id) && self.live(id) ==> self.live(#[trigger] self.parent(id))
        &&& forall|id: NodeID|
            id != ROOT_NODE && self.has(id) && self.live(id) ==> self.find(
                #[trigger] self.parent(id),
                self.node(id).name_hash,
            ) == Some(id)
        &&& exists|rank: Seq<nat>| self.ranked(rank)
    }

    /// The tree after an edit of one node.
    pub open spec fn edited(self, id: NodeID, edit: Edit) -> Tree {
        let entry = self.entries[id as int];
        Tree {
            entries: self.entries.update(
                id as int,
                Entry { node: edit.applied(entry.node), ..entry },
            ),
            ..self
        }
    }

    /// The tree with its changes recorded.
    pub open spec fn noted(self) -> Tree {
        Tree { dirty: true, ..self }
    }

    /// The id that the next added node gets.
    pub open spec fn next_id(self) -> NodeID {
        self.entries.len() as NodeID
    }

    /// The tree with one more node below `parent`.
    pub open spec fn added(self, parent: NodeID, record: Node, name: Seq<char>) -> Tree {
        Tree {
            entries: self.entries.push(Entry { node: record, parent, name }),
            links: self.links.push(self.next_id()),
            dirty: true,
        }
    }

    /// The tree with `mark` on a node, and everything above the node staged.
    pub open spec fn marked(self, id: NodeID, mark: StageMark) -> Tree {
        Tree {
            entries: Seq::new(
                self.entries.len(),
                |i: int|
                    {
                        let entry = self.entries[i];
                        if i == id {
                            Entry { node: entry.node.marked(mark), ..entry }
                        } else if self.ancestor(i as NodeID, id) {
                            Entry { node: entry.node.marked(StageMark::Staged), ..entry }
                        } else {
                            entry
                        }
                    },
            ),
            dirty: true,
            ..self
        }
    }
}

impl Tree {
    /// A lookup gives the latest match.
    pub proof fn lemma_find(self, position: int, parent: NodeID, name_hash: u64)
        requires
            self.latest(position, parent, name_hash),
        ensures
            self.find(parent, name_hash) == Some(self.links[position]),
    {
        reveal(Tree::find);
    }

    /// Where something matches, a lookup gives something.
    pub proof fn lemma_some_match(self, position: int, parent: NodeID, name_hash: u64)
        requires
            0 <= position < self.links.len(),
            self.matches(self.links[position], parent, name_hash),
        ensures
            self.find(parent, name_hash) is Some,
        decreases self.links.len() - position,
    {
        if self.latest(position, parent, name_hash) {
            self.lemma_find(position, parent, name_hash);
        } else {
            let later = choose|later: int|
                position < later < self.links.len() && self.matches(
                    #[trigger] self.links[later],
                    parent,
                    name_hash,
                );
            self.lemma_some_match(later, parent, name_hash);
        }
    }

    /// What a lookup gives is a match.
    pub proof fn lemma_found(self, parent: NodeID, name_hash: u64)
        ensures
            self.find(parent, name_hash) matches Some(id) ==> self.matches(id, parent, name_hash),
    {
        reveal(Tree::find);
    }

    /// If what matches is the same in two trees, so is what lookups give.
    pub proof fn lemma_same_find(self, other: Tree, parent: NodeID, name_hash: u64)
        requires
            self.links == other.links,
            forall|id: NodeID|
                other.matches(id, parent, name_hash) == #[trigger] self.matches(
                    id,
                    parent,
                    name_hash,
                ),
        ensures
            other.find(parent, name_hash) == self.find(parent, name_hash),
    {
        reveal(Tree::find);
        assert forall|position: int|
            other.latest(position, parent, name_hash) == self.latest(
                position,
                parent,
                name_hash,
            ) by {}
        if self.find(parent, name_hash) is Some {
            let position = choose|position: int| self.latest(position, parent, name_hash);
            assert(other.latest(position, parent, name_hash));
            other.lemma_find(position, parent, name_hash);
        }
    }
}

impl Tree {
    pub proof fn lemma_up_add(self, id: NodeID, first: nat, rest: nat)
        ensures
            self.up(id, first + rest) == self.up(self.up(id, first), rest),
        decreases first,
    {
        if first > 0 {
            self.lemma_up_add(self.parent(id), (first - 1) as nat, rest);
        }
    }

    pub proof fn lemma_up_step(self, id: NodeID, steps: nat)
        ensures
            self.up(id, steps + 1) == self.parent(self.up(id, steps)),
    {
        self.lemma_up_add(id, steps, 1);
        reveal_with_fuel(Tree::up, 2);
    }

    pub proof fn lemma_up_has(self, id: NodeID, steps: nat)
        requires
            self.wf(),
            self.has(id),
        ensures
            self.has(self.up(id, steps)),
        decreases steps,
    {
        if steps > 0 {
            self.lemma_up_has(self.parent(id), (steps - 1) as nat);
        }
    }

    pub proof fn lemma_up_root(self, steps: nat)
        requires
            self.wf(),
        ensures
            self.up(ROOT_NODE, steps) == ROOT_NODE,
        decreases steps,
    {
        if steps > 0 {
            self.lemma_up_root((steps - 1) as nat);
        }
    }
}

impl Tree {
    /// The entry at `i` when `id` has been marked and the climb from it has
    /// staged all that lies fewer than `steps` levels up.
    pub(crate) open spec fn climbed(
        self,
        id: NodeID,
        mark: StageMark,
        steps: nat,
        i: int,
    ) -> Entry {
        let entry = self.entries[i];
        if i == id {
            Entry { node: entry.node.marked(mark), ..entry }
        } else if exists|k: nat| 1 <= k < steps && #[trigger] self.up(id, k) == i {
            Entry { node: entry.node.marked(StageMark::Staged), ..entry }
        } else {
            entry
        }
    }
}

/// How staging ended: the tree it left, and the node staged or the refusal.
pub struct Outcome {
    pub tree: Tree,
    pub result: Result<NodeID, Refusal>,
}

impl Tree {
    /// One component staged below `parent`: the tree and the node that stands
    /// for the component then, or `None` where a live node of another kind is
    /// in the way.
    pub open spec fn stage_component(
        self,
        parent: NodeID,
        name: Seq<char>,
        name_hash: u64,
        content: Option<LeafContent>,
    ) -> Option<(Tree, NodeID)> {
        let found = self.find(parent, name_hash);
        if found is Some && crate::walk::suits(self.node(found->0), content) {
            let id = found->0;
            if content is Some || !self.live(id) {
                let edit = Edit { undelete: !self.live(id), content };
                Some(
                    (
                        self.edited(id, edit).noted().marked(id, crate::walk::mark_of_old(content)),
                        id,
                    ),
                )
            } else {
                Some((self, id))
            }
        } else if found is Some && self.live(found->0) {
            None
        } else {
            let id = self.next_id();
            Some(
                (
                    self.added(parent, crate::walk::fresh(name_hash, content), name).marked(
                        id,
                        crate::walk::mark_of_new(content),
                    ),
                    id,
                ),
            )
        }
    }

    /// The components from `index` on staged one below the other, starting
    /// below `parent`.
    pub open spec fn stage_from(
        self,
        parent: NodeID,
        names: Seq<Seq<char>>,
        plan: Plan,
        index: int,
    ) -> Outcome
        decreases plan.hashes.len() - index,
    {
        if index < 0 || index >= plan.hashes.len() {
            Outcome { tree: self, result: Ok(parent) }
        } else {
            match self.stage_component(
                parent,
                names[index],
                plan.hashes[index],
                plan.content(index),
            ) {
                Some((tree, id)) => tree.stage_from(id, names, plan, index + 1),
                None => Outcome {
                    tree: self,
                    result: Err(crate::walk::refusal(plan.content(index), index as usize)),
                },
            }
        }
    }

    /// The whole path staged.
    pub open spec fn staged(self, names: Seq<Seq<char>>, plan: Plan) -> Outcome {
        if plan.hashes.len() == 0 && plan.target is Leaf {
            Outcome { tree: self, result: Err(Refusal::RepositoryRoot) }
        } else {
            self.stage_from(ROOT_NODE, names, plan, 0)
        }
    }
}

impl Tree {
    /// `self` and `other` have the same nodes in the same places, of the same
    /// kinds and under the same names, and the same ones are live.
    pub open spec fn same_shape(self, other: Tree) -> bool {
        &&& self.entries.len() == other.entries.len()
        &&& self.links == other.links
        &&& forall|id: NodeID| #[trigger]
            other.has(id) ==> {
                &&& other.parent(id) == self.parent(id)
                &&& other.node(id).name_hash == self.node(id).name_hash
                &&& other.node(id).file() == self.node(id).file()
                &&& other.node(id).directory() == self.node(id).directory()
                &&& other.live(id) == self.live(id)
            }
    }

    proof fn lemma_same_shape_find(self, other: Tree, parent: NodeID, name_hash: u64)
        requires
            self.same_shape(other),
        ensures
            other.find(parent, name_hash) == self.find(parent, name_hash),
    {
        assert forall|id: NodeID|
            other.matches(id, parent, name_hash) == #[trigger] self.matches(
                id,
                parent,
                name_hash,
            ) by {
            assert(other.has(id) == self.has(id));
        }
        self.lemma_same_find(other, parent, name_hash);
    }

    proof fn lemma_same_shape_wf(self, other: Tree)
        requires
            self.same_shape(other),
            self.wf(),
        ensures
            other.wf(),
    {
        assert(other.has(ROOT_NODE));
        assert forall|id: NodeID| other.has(id) implies other.has(#[trigger] other.parent(id))
            && other.node(other.parent(id)).directory() by {
            assert(self.has(self.parent(id)));
            assert(other.has(other.parent(id)));
        }
        assert forall|id: NodeID| other.has(id) && other.live(id) implies other.live(
            #[trigger] other.parent(id),
        ) by {
            assert(self.has(self.parent(id)));
            assert(other.has(other.parent(id)));
        }
        assert forall|id: NodeID|
            id != ROOT_NODE && other.has(id) && other.live(id) implies other.find(
            #[trigger] other.parent(id),
            other.node(id).name_hash,
        ) == Some(id) by {
            assert(self.find(self.parent(id), self.node(id).name_hash) == Some(id));
            self.lemma_same_shape_find(other, self.parent(id), self.node(id).name_hash);
        }
        let rank = choose|rank: Seq<nat>| self.ranked(rank);
        assert(other.ranked(rank)) by {
            assert forall|id: NodeID| id != ROOT_NODE && other.has(id) implies rank[
                #[trigger] other.parent(id) as int] < rank[id as int] by {
                assert(self.parent(id) == other.parent(id));
            }
        }
    }

    /// Trees of the same shape are well formed together and give the same
    /// answers to lookups.
    pub proof fn lemma_same_shape(self, other: Tree)
        requires
            self.same_shape(other),
            self.wf(),
        ensures
            other.wf(),
            forall|parent: NodeID, name_hash: u64| #[trigger]
                other.find(parent, name_hash) == self.find(parent, name_hash),
    {
        self.lemma_same_shape_wf(other);
        assert forall|parent: NodeID, name_hash: u64| #[trigger]
            other.find(parent, name_hash) == self.find(parent, name_hash) by {
            self.lemma_same_shape_find(other, parent, name_hash);
        }
    }

    pub proof fn lemma_noted_shape(self)
        ensures
            self.same_shape(self.noted()),
    {
    }

    pub proof fn lemma_marked_shape(self, id: NodeID, mark: StageMark)
        requires
            mark !is StagedDelete,
        ensures
            self.same_shape(self.marked(id, mark)),
    {
    }

    /// No live child of `parent` goes by this name hash.
    pub open spec fn vacant(self, parent: NodeID, name_hash: u64) -> bool {
        forall|id: NodeID| #[trigger] self.matches(id, parent, name_hash) ==> !self.live(id)
    }

    /// A lookup that gives nothing, or a node staged for deletion, shows that
    /// no live node is there.
    pub proof fn lemma_vacant(self, parent: NodeID, name_hash: u64)
        requires
            self.wf(),
            self.find(parent, name_hash) matches Some(id) ==> !self.live(id),
        ensures
            self.vacant(parent, name_hash),
    {
        assert forall|id: NodeID| #[trigger]
            self.matches(id, parent, name_hash) implies !self.live(id) by {
            if self.live(id) {
                assert(self.find(self.parent(id), name_hash) == Some(id));
            }
        }
    }

    pub proof fn lemma_edited_wf(self, id: NodeID, edit: Edit)
        requires
            self.wf(),
            self.has(id),
            id != ROOT_NODE,
            edit.undelete ==> self.live(self.parent(id)) && self.find(
                self.parent(id),
                self.node(id).name_hash,
            ) == Some(id),
        ensures
            self.edited(id, edit).wf(),
            forall|parent: NodeID, name_hash: u64| #[trigger]
                self.edited(id, edit).find(parent, name_hash) == self.find(parent, name_hash),
    {
        let other = self.edited(id, edit);
        assert forall|parent: NodeID, name_hash: u64| #[trigger]
            other.find(parent, name_hash) == self.find(parent, name_hash) by {
            self.lemma_same_find(other, parent, name_hash);
        }
        assert forall|i: NodeID| other.has(i) implies other.has(#[trigger] other.parent(i))
            && other.node(other.parent(i)).directory() by {
            assert(self.has(self.parent(i)));
        }
        assert forall|i: NodeID| other.has(i) && other.live(i) implies other.live(
            #[trigger] other.parent(i),
        ) by {
            assert(self.has(self.parent(i)));
        }
        assert forall|i: NodeID| i != ROOT_NODE && other.has(i) && other.live(i) implies other.find(
            #[trigger] other.parent(i), other.node(i).name_hash) == Some(i) by {
            assert(i != id ==> self.find(self.parent(i), self.node(i).name_hash) == Some(i));
            assert(i == id && self.live(id) ==> self.find(
                self.parent(i),
                self.node(i).name_hash,
            ) == Some(i));
        }
        assert(self.has(ROOT_NODE));
        let rank = choose|rank: Seq<nat>| self.ranked(rank);
        assert(other.ranked(rank)) by {
            assert forall|i: NodeID| i != ROOT_NODE && other.has(i) implies rank[
                #[trigger] other.parent(i) as int] < rank[i as int] by {
                assert(self.parent(i) == other.parent(i));
            }
        }
    }

    /// What lookups give after a node has been added.
    pub proof fn lemma_added_find(
        self,
        parent: NodeID,
        record: Node,
        name: Seq<char>,
        p: NodeID,
        name_hash: u64,
    )
        requires
            self.wf(),
            self.entries.len() < u64::MAX,
        ensures
            self.added(parent, record, name).find(p, name_hash) == if p == parent && name_hash
                == record.name_hash {
                Some(self.next_id())
            } else {
                self.find(p, name_hash)
            },
    {
        reveal(Tree::find);
        let other = self.added(parent, record, name);
        let new = self.next_id();
        let last = self.links.len() as int;
        assert(other.links[last] == new);
        assert forall|id: NodeID| id != new implies other.matches(id, p, name_hash)
            == #[trigger] self.matches(id, p, name_hash) by {}
        if p == parent && name_hash == record.name_hash {
            assert(other.latest(last, p, name_hash));
            other.lemma_find(last, p, name_hash);
        } else {
            assert(!other.matches(new, p, name_hash));
            assert(!self.matches(new, p, name_hash));
            if self.find(p, name_hash) is Some {
                let position = choose|position: int| self.latest(position, p, name_hash);
                assert(other.links[position] == self.links[position]);
                assert forall|later: int|
                    position < later < other.links.len() implies !other.matches(
                    #[trigger] other.links[later],
                    p,
                    name_hash,
                ) by {
                    if later < last {
                        assert(other.links[later] == self.links[later]);
                    }
                }
                assert(other.latest(position, p, name_hash));
                other.lemma_find(position, p, name_hash);
            } else if other.find(p, name_hash) is Some {
                let position = choose|position: int| other.latest(position, p, name_hash);
                assert(position < last);
                assert(other.links[position] == self.links[position]);
                assert forall|later: int| position < later < self.links.len() implies !self.matches(
                    #[trigger] self.links[later], p, name_hash) by {
                    assert(other.links[later] == self.links[later]);
                }
                assert(self.latest(position, p, name_hash));
            }
        }
    }

    pub proof fn lemma_added_wf(self, parent: NodeID, record: Node, name: Seq<char>)
        requires
            self.wf(),
            self.open_directory(parent),
            self.vacant(parent, record.name_hash),
            self.entries.len() < u64::MAX,
        ensures
            self.added(parent, record, name).wf(),
            self.added(parent, record, name).find(parent, record.name_hash) == Some(
                self.next_id(),
            ),
    {
        self.lemma_added_find(parent, record, name, parent, record.name_hash);
        let other = self.added(parent, record, name);
        let new = self.next_id();
        assert forall|i: NodeID| i != ROOT_NODE && other.has(i) && other.live(i) implies other.find(
            #[trigger] other.parent(i), other.node(i).name_hash) == Some(i) by {
            self.lemma_added_find(parent, record, name, other.parent(i), other.node(i).name_hash);
            if i != new {
                assert(self.find(self.parent(i), self.node(i).name_hash) == Some(i));
                assert(self.matches(i, self.parent(i), self.node(i).name_hash));
            }
        }
        assert forall|i: NodeID| other.has(i) implies other.has(#[trigger] other.parent(i))
            && other.node(other.parent(i)).directory() by {
            assert(i != new ==> self.has(self.parent(i)));
        }
        assert forall|i: NodeID| other.has(i) && other.live(i) implies other.live(
            #[trigger] other.parent(i),
        ) by {
            assert(i != new ==> self.has(self.parent(i)));
        }
        assert(self.has(ROOT_NODE));
        let rank = choose|rank: Seq<nat>| self.ranked(rank);
        let rank2 = rank.push(rank[parent as int] + 1);
        assert(other.ranked(rank2)) by {
            assert forall|i: NodeID| i != ROOT_NODE && other.has(i) implies rank2[
                #[trigger] other.parent(i) as int] < rank2[i as int] by {
                assert(i != new ==> self.has(self.parent(i)));
            }
        }
    }
}

} // verus!
