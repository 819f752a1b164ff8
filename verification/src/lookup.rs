//! Facts about what paths lead to.

use vstd::prelude::*;
use crate::node::{NodeID, ROOT_NODE};
use crate::tree::Tree;

verus! {

impl Tree {
    pub proof fn lemma_up_same(self, after: Tree, id: NodeID, steps: nat)
        requires
            self.wf(),
            self.has(id),
            forall|i: NodeID| self.has(i) ==> #[trigger] after.parent(i) == self.parent(i),
        ensures
            after.up(id, steps) == self.up(id, steps),
        decreases steps,
    {
        if steps > 0 {
            assert(after.parent(id) == self.parent(id));
            assert(self.has(self.parent(id)));
            self.lemma_up_same(after, self.parent(id), (steps - 1) as nat);
        }
    }

    /// A path that has components leads to a node other than the root.
    pub proof fn lemma_resolved_from(self, at: NodeID, hashes: Seq<u64>, index: int)
        requires
            self.wf(),
            self.has(at),
            0 <= index <= hashes.len(),
        ensures
            self.resolve_from(at, hashes, index) matches Some(id) ==> self.has(id) && (index
                < hashes.len() ==> id != ROOT_NODE),
        decreases hashes.len() - index,
    {
        if index < hashes.len() {
            if let Some(child) = self.find(at, hashes[index]) {
                self.lemma_found(at, hashes[index]);
                self.lemma_resolved_from(child, hashes, index + 1);
            }
        }
    }

    pub proof fn lemma_resolved_node(self, hashes: Seq<u64>)
        requires
            self.wf(),
        ensures
            self.resolve(hashes) matches Some(id) ==> self.has(id) && (hashes.len() > 0 ==> id
                != ROOT_NODE),
    {
        self.lemma_resolved_from(ROOT_NODE, hashes, 0);
    }

    /// What leads to a live node is live, and a directory unless it is the
    /// node itself.
    pub proof fn lemma_live_way(self, at: NodeID, hashes: Seq<u64>, index: int)
        requires
            self.wf(),
            0 <= index <= hashes.len(),
            self.resolve_from(at, hashes, index) is Some,
            self.has(self.resolve_from(at, hashes, index)->0),
            self.live(self.resolve_from(at, hashes, index)->0),
        ensures
            self.has(at),
            self.live(at),
            index < hashes.len() ==> self.node(at).directory(),
        decreases hashes.len() - index,
    {
        if index < hashes.len() {
            let child = self.find(at, hashes[index])->0;
            self.lemma_found(at, hashes[index]);
            self.lemma_live_way(child, hashes, index + 1);
            assert(self.has(self.parent(child)));
        }
    }

    /// The way up from what a path leads to goes back along the path.
    pub proof fn lemma_way_back(self, at: NodeID, hashes: Seq<u64>, index: int, back: nat)
        requires
            self.wf(),
            self.has(at),
            0 <= index <= hashes.len(),
            back <= hashes.len() - index,
            self.resolve_from(at, hashes, index) is Some,
        ensures
            ({
                let above = self.up(self.resolve_from(at, hashes, index)->0, back);
                if back == hashes.len() - index {
                    above == at
                } else {
                    above != ROOT_NODE && self.node(above).name_hash == hashes[hashes.len() - 1
                        - back]
                }
            }),
        decreases hashes.len() - index,
    {
        if index < hashes.len() {
            let child = self.find(at, hashes[index])->0;
            let id = self.resolve_from(at, hashes, index)->0;
            self.lemma_found(at, hashes[index]);
            if back == hashes.len() - index {
                self.lemma_way_back(child, hashes, index + 1, (back - 1) as nat);
                self.lemma_up_step(id, (back - 1) as nat);
            } else {
                self.lemma_way_back(child, hashes, index + 1, back);
            }
        }
    }

    pub proof fn lemma_kept_resolve(self, after: Tree, at: NodeID, hashes: Seq<u64>, index: int)
        requires
            self.wf(),
            after.wf(),
            self.kept_in(after),
            self.has(at),
            0 <= index <= hashes.len(),
            self.resolve_from(at, hashes, index) is Some,
            self.live(self.resolve_from(at, hashes, index)->0),
        ensures
            after.resolve_from(at, hashes, index) == self.resolve_from(at, hashes, index),
        decreases hashes.len() - index,
    {
        if index < hashes.len() {
            let child = self.find(at, hashes[index])->0;
            self.lemma_found(at, hashes[index]);
            self.lemma_resolved_from(child, hashes, index + 1);
            self.lemma_live_way(child, hashes, index + 1);
            self.lemma_kept_find(after, at, hashes[index]);
            self.lemma_kept_resolve(after, child, hashes, index + 1);
        }
    }

    /// A path still leads to a live node in another tree where the node and
    /// all above it have their places, their names and their liveness.
    pub proof fn lemma_resolve_carried(
        self,
        after: Tree,
        at: NodeID,
        hashes: Seq<u64>,
        index: int,
        id: NodeID,
    )
        requires
            self.wf(),
            after.wf(),
            self.has(at),
            0 <= index <= hashes.len(),
            self.resolve_from(at, hashes, index) == Some(id),
            forall|i: NodeID| #[trigger]
                self.within(id, i) ==> {
                    &&& after.has(i)
                    &&& after.live(i)
                    &&& after.parent(i) == self.parent(i)
                    &&& i != ROOT_NODE ==> after.node(i).name_hash == self.node(i).name_hash
                },
        ensures
            after.resolve_from(at, hashes, index) == Some(id),
        decreases hashes.len() - index,
    {
        if index < hashes.len() {
            let child = self.find(at, hashes[index])->0;
            self.lemma_found(at, hashes[index]);
            self.lemma_way_back(child, hashes, index + 1, (hashes.len() - index - 1) as nat);
            assert(self.within(id, child));
            assert(after.find(after.parent(child), after.node(child).name_hash) == Some(child));
            self.lemma_resolve_carried(after, child, hashes, index + 1, id);
        }
    }

    /// Where lookups are the same, paths lead to the same.
    pub proof fn lemma_same_resolve(self, after: Tree, at: NodeID, hashes: Seq<u64>, index: int)
        requires
            0 <= index <= hashes.len(),
            forall|parent: NodeID, name_hash: u64| #[trigger]
                after.find(parent, name_hash) == self.find(parent, name_hash),
        ensures
            after.resolve_from(at, hashes, index) == self.resolve_from(at, hashes, index),
        decreases hashes.len() - index,
    {
        if index < hashes.len() {
            assert(after.find(at, hashes[index]) == self.find(at, hashes[index]));
            if let Some(child) = self.find(at, hashes[index]) {
                self.lemma_same_resolve(after, child, hashes, index + 1);
            }
        }
    }

    /// Every part of the way to a live node leads to a live directory.
    pub proof fn lemma_way_open(self, at: NodeID, hashes: Seq<u64>, index: int, count: int)
        requires
            self.wf(),
            self.has(at),
            0 <= index <= count < hashes.len(),
            self.resolve_from(at, hashes, index) is Some,
            self.live(self.resolve_from(at, hashes, index)->0),
        ensures
            self.resolve_from(at, hashes.take(count), index) matches Some(id)
                && self.open_directory(id),
        decreases count - index,
    {
        self.lemma_resolved_from(at, hashes, index);
        self.lemma_live_way(at, hashes, index);
        if index < count {
            let child = self.find(at, hashes[index])->0;
            self.lemma_found(at, hashes[index]);
            self.lemma_way_open(child, hashes, index + 1, count);
        }
    }

    /// The last component is looked up below what the others lead to.
    pub proof fn lemma_resolve_last(self, at: NodeID, hashes: Seq<u64>, index: int)
        requires
            0 <= index < hashes.len(),
        ensures
            self.resolve_from(at, hashes, index) == match self.resolve_from(
                at,
                hashes.drop_last(),
                index,
            ) {
                Some(parent) => self.find(parent, hashes.last()),
                None => None,
            },
        decreases hashes.len() - index,
    {
        if index + 1 < hashes.len() {
            if let Some(child) = self.find(at, hashes[index]) {
                self.lemma_resolve_last(child, hashes, index + 1);
            }
        } else if let Some(child) = self.find(at, hashes[index]) {
            assert(self.resolve_from(child, hashes, index + 1) == Some(child));
        }
    }

    /// If one path leads to something within what another path leads to, it
    /// continues that path.
    pub proof fn lemma_prefix(self, longer: Seq<u64>, shorter: Seq<u64>)
        requires
            self.wf(),
            self.resolve(longer) is Some,
            self.resolve(shorter) is Some,
            self.within(self.resolve(longer)->0, self.resolve(shorter)->0),
        ensures
            shorter.is_prefix_of(longer),
    {
        let id = self.resolve(longer)->0;
        let top = self.resolve(shorter)->0;
        let steps = choose|steps: nat| #[trigger] self.up(id, steps) == top;
        let count = longer.len();
        self.lemma_resolved_node(shorter);
        self.lemma_way_back(ROOT_NODE, longer, 0, count);
        if steps >= count {
            self.lemma_up_add(id, count, (steps - count) as nat);
            self.lemma_up_root((steps - count) as nat);
            assert(shorter =~= longer.subrange(0, 0));
        } else {
            let rest = (count - steps) as nat;
            self.lemma_way_back(ROOT_NODE, shorter, 0, shorter.len());
            if shorter.len() < rest {
                self.lemma_up_add(id, steps, shorter.len());
                self.lemma_way_back(ROOT_NODE, longer, 0, steps + shorter.len());
            }
            if rest < shorter.len() {
                self.lemma_up_add(id, steps, rest);
                self.lemma_way_back(ROOT_NODE, shorter, 0, rest);
            }
            assert forall|i: int| 0 <= i < rest implies shorter[i] == longer[i] by {
                let back = (rest - 1 - i) as nat;
                self.lemma_way_back(ROOT_NODE, shorter, 0, back);
                self.lemma_up_add(id, steps, back);
                self.lemma_way_back(ROOT_NODE, longer, 0, steps + back);
            }
            assert(shorter =~= longer.subrange(0, rest as int));
        }
    }
}

} // verus!
