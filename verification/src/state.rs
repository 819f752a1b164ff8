//! A revision tree held in memory.

use vstd::prelude::*;
use crate::errors::{Refusal, StateError};
use crate::node::{Node, NodeID, ROOT_NODE, StageMark, mark_flags};
use crate::relocate::DeleteOutcome;
use crate::tree::{Entry, Tree};
use crate::walk::{Action, Component, Edit, Event, Plan, Target, Walk, WalkError};

verus! {

struct Slot {
    node: Node,
    parent: NodeID,
    name: String,
}

/// A revision tree that staging works on. Nodes are never taken out: a delete
/// is staged as a flag, and a node's id stays its id.
pub struct State {
    slots: Vec<Slot>,
    links: Vec<NodeID>,
    dirty: bool,
}

impl View for State {
    type V = Tree;

    closed spec fn view(&self) -> Tree {
        Tree {
            entries: self.slots@.map_values(
                |slot: Slot| Entry { node: slot.node, parent: slot.parent, name: slot.name@ },
            ),
            links: self.links@,
            dirty: self.dirty,
        }
    }
}

impl State {
    /// A tree with nothing but its root, and nothing to save.
    pub fn new() -> (state: State)
        ensures
            state@.wf(),
            state@ == (Tree {
                entries: seq![
                    Entry { node: Node::blank(), parent: ROOT_NODE, name: Seq::empty() },
                ],
                links: Seq::empty(),
                dirty: false,
            }),
    {
        let mut slots: Vec<Slot> = Vec::new();
        slots.push(Slot { node: Node::default(), parent: ROOT_NODE, name: String::new() });
        let state = State { slots, links: Vec::new(), dirty: false };
        proof {
            assert(state@.ranked(seq![0]));
            assert(state@.entries =~= seq![
                Entry { node: Node::blank(), parent: ROOT_NODE, name: Seq::empty() },
            ]);
        }
        state
    }

    /// Whether there are changes that no store has yet.
    pub fn is_dirty(&self) -> (dirty: bool)
        ensures
            dirty == self@.dirty,
    {
        self.dirty
    }

    /// The node with this id.
    pub fn node(&self, id: NodeID) -> (node: Option<Node>)
        ensures
            node == if self@.has(id) {
                Some(self@.node(id))
            } else {
                None
            },
    {
        if id < self.slots.len() as u64 {
            Some(self.slots[id as usize].node)
        } else {
            None
        }
    }

    /// The child of `parent` with this name hash, the latest if there are
    /// several.
    pub fn find_subnode(&self, parent: NodeID, name_hash: u64) -> (found: Option<NodeID>)
        ensures
            found == self@.find(parent, name_hash),
    {
        let mut i: usize = self.links.len();
        while i > 0
            invariant
                i <= self.links.len(),
                forall|k: int|
                    i <= k < self@.links.len() ==> !self@.matches(
                        #[trigger] self@.links[k],
                        parent,
                        name_hash,
                    ),
            decreases i,
        {
            i -= 1;
            let id: NodeID = self.links[i];
            if id != ROOT_NODE && id < self.slots.len() as u64 {
                let slot = &self.slots[id as usize];
                if slot.parent == parent && slot.node.name_hash == name_hash {
                    proof {
                        assert(self@.links[i as int] == id);
                        assert(self@.latest(i as int, parent, name_hash));
                        self@.lemma_find(i as int, parent, name_hash);
                    }
                    return Some(id);
                }
            }
            assert(self@.links[i as int] == id);
        }
        proof {
            reveal(Tree::find);
        }
        None
    }

    fn rewrite(&mut self, id: NodeID, edit: Edit) -> (dirtied: bool)
        requires
            old(self)@.has(id),
        ensures
            final(self)@ == old(self)@.edited(id, edit),
            dirtied == !old(self)@.dirty,
    {
        assert(id < self.slots.len());
        let mut node = self.slots[id as usize].node;
        edit.apply(&mut node);
        self.slots[id as usize].node = node;
        assert(self@.entries =~= old(self)@.edited(id, edit).entries);
        !self.dirty
    }

    fn node_add(&mut self, parent: NodeID, record: Node, name: &str) -> (id: NodeID)
        ensures
            final(self)@ == old(self)@.added(parent, record, name@),
            final(self)@.entries.len() <= u64::MAX,
            id == old(self)@.next_id(),
    {
        let id: usize = self.slots.len();
        self.slots.push(Slot { node: record, parent, name: name.to_owned() });
        self.links.push(id as NodeID);
        self.dirty = true;
        assert(self@.entries =~= old(self)@.added(parent, record, name@).entries);
        assert(self.slots.len() == self@.entries.len());
        id as NodeID
    }

    fn parent(&self, id: NodeID) -> (parent: NodeID)
        requires
            self@.has(id),
        ensures
            parent == self@.parent(id),
    {
        assert(id < self.slots.len());
        self.slots[id as usize].parent
    }

    fn mark_slot(&mut self, id: NodeID, mark: StageMark)
        requires
            old(self)@.has(id),
        ensures
            final(self)@.dirty == old(self)@.dirty,
            final(self)@.links == old(self)@.links,
            final(self)@.entries == old(self)@.entries.update(
                id as int,
                Entry {
                    node: old(self)@.node(id).marked(mark),
                    ..old(self)@.entries[id as int]
                },
            ),
    {
        assert(id < self.slots.len());
        let mut node = self.slots[id as usize].node;
        mark_flags(&mut node, mark);
        self.slots[id as usize].node = node;
        assert(self@.entries =~= old(self)@.entries.update(
            id as int,
            Entry { node: old(self)@.node(id).marked(mark), ..old(self)@.entries[id as int] },
        ));
    }

    /// Puts `mark` on a node and stages everything above it.
    fn node_mark(&mut self, id: NodeID, mark: StageMark)
        requires
            old(self)@.wf(),
            old(self)@.has(id),
        ensures
            final(self)@ == old(self)@.marked(id, mark),
    {
        let ghost tree = self@;
        let ghost rank = choose|rank: Seq<nat>| tree.ranked(rank);
        let ghost mut steps: nat = 1;
        self.mark_slot(id, mark);
        self.dirty = true;
        let mut above: NodeID = self.parent(id);
        proof {
            reveal_with_fuel(Tree::up, 2);
            assert(tree.has(tree.parent(id)));
        }
        while above != ROOT_NODE
            invariant
                tree.wf(),
                tree.ranked(rank),
                tree.has(id),
                tree.has(above),
                steps >= 1,
                above == tree.up(id, steps),
                self@.dirty,
                self@.links == tree.links,
                self@.entries.len() == tree.entries.len(),
                forall|i: int|
                    0 <= i < tree.entries.len() ==> #[trigger] self@.entries[i] == tree.climbed(
                        id,
                        mark,
                        steps,
                        i,
                    ),
            decreases rank[above as int],
        {
            let ghost before = self@;
            self.mark_slot(above, StageMark::Staged);
            above = self.parent(above);
            proof {
                assert(tree.has(tree.parent(tree.up(id, steps))));
                tree.lemma_up_step(id, steps);
                steps = steps + 1;
                assert forall|i: int| 0 <= i < tree.entries.len() implies #[trigger]
                    self@.entries[i] == tree.climbed(id, mark, steps, i) by {
                    assert(before.entries[i] == tree.climbed(id, mark, (steps - 1) as nat, i));
                }
            }
        }
        self.mark_slot(ROOT_NODE, StageMark::Staged);
        proof {
            assert forall|i: int| 0 <= i < tree.entries.len() implies #[trigger] self@.entries[i]
                == tree.marked(id, mark).entries[i] by {
                if tree.ancestor(i as NodeID, id) {
                    let k = choose|k: nat| k >= 1 && #[trigger] tree.up(id, k) == i as NodeID;
                    if k >= steps {
                        tree.lemma_up_add(id, steps, (k - steps) as nat);
                        tree.lemma_up_root((k - steps) as nat);
                    }
                }
                assert(tree.up(id, steps) == ROOT_NODE);
            }
            assert(self@.entries =~= tree.marked(id, mark).entries);
        }
    }

    /// Performs one action of a walk along `components`.
    fn perform<E>(&mut self, components: &Vec<Component>, action: &Action<E>) -> (event: Event<E>)
        requires
            old(self)@.wf(),
            match *action {
                Action::Find { .. } => true,
                Action::Load { node } => old(self)@.has(node),
                Action::Rewrite { node, .. } => old(self)@.has(node),
                Action::NoteModified { .. } => true,
                Action::Add { component, .. } => component < components@.len(),
                Action::Mark { node, .. } => old(self)@.has(node),
                Action::Finish(_) => false,
            },
        ensures
            (final(self)@, event) == old(self)@.answer(crate::walk::names(components@), *action),
            action is Add ==> old(self)@.entries.len() < u64::MAX,
    {
        match action {
            Action::Find { parent, name_hash } => match self.find_subnode(*parent, *name_hash) {
                Some(id) => Event::Found(id),
                None => Event::NotFound,
            },
            Action::Load { node } => {
                assert(*node < self.slots.len());
                Event::Loaded(self.slots[*node as usize].node)
            },
            Action::Rewrite { node, edit } => Event::Rewritten {
                dirtied: self.rewrite(*node, *edit),
            },
            Action::Add { parent, record, component } => Event::Added(
                self.node_add(*parent, *record, components[*component].name.as_str()),
            ),
            Action::Mark { node, mark } => {
                self.node_mark(*node, *mark);
                Event::Marked
            },
            _ => {
                self.dirty = true;
                Event::Noted
            },
        }
    }

    /// Walks along `components`, performing each action on this tree.
    pub fn stage(&mut self, components: Vec<Component>, target: Target) -> (result: Result<
        NodeID,
        StateError,
    >)
        requires
            old(self)@.wf(),
        ensures
            final(self)@.wf(),
            crate::direct_write::staged_as(
                old(self)@,
                final(self)@,
                result,
                crate::walk::names(components@),
                Plan { hashes: crate::walk::hashes(components@), target },
            ),
    {
        let ghost plan = Plan { hashes: crate::walk::hashes(components@), target };
        let ghost names = crate::walk::names(components@);
        let ghost goal = self@.staged(names, plan);
        let ghost count = components.len();
        let (mut walk, mut action) = Walk::begin::<StateError>(components, target);
        proof {
            self@.lemma_begin::<StateError>(names, plan);
        }
        #[verifier::loop_isolation(false)]
        loop
            invariant
                walk.plan() == plan,
                names == crate::walk::names(walk.components@),
                count == walk.components.len(),
                walk.cursor.index <= count,
                self@.on_course(names, plan, walk.cursor, action, goal),
            decreases count - walk.cursor.index, crate::course::phase_rank(walk.cursor.phase),
        {
            if let Action::Finish(result) = action {
                return match result {
                    Ok(id) => Ok(id),
                    Err(WalkError::Store(error)) => Err(error),
                    Err(WalkError::Refused(refusal)) => {
                        let name = match refusal {
                            Refusal::RepositoryRoot => "",
                            Refusal::NotAFile { component } =>
                                walk.components[component].name.as_str(),
                            Refusal::NotADirectory { component } =>
                                walk.components[component].name.as_str(),
                        };
                        Err(refusal.explain(name))
                    },
                };
            }
            let ghost tree = self@;
            proof {
                tree.lemma_found(walk.cursor.parent, plan.hashes[walk.cursor.index as int]);
            }
            let event = self.perform(&walk.components, &action);
            proof {
                tree.lemma_step(names, plan, walk.cursor, action, goal);
            }
            action = walk.step(event);
        }
    }

    /// What the path made of `components` leads to.
    pub fn resolve(&self, components: &Vec<Component>) -> (found: Option<NodeID>)
        requires
            self@.wf(),
        ensures
            found == self@.resolve(crate::walk::hashes(components@)),
    {
        let ghost hashes = crate::walk::hashes(components@);
        let mut at: NodeID = ROOT_NODE;
        let mut i: usize = 0;
        while i < components.len()
            invariant
                self@.wf(),
                hashes == crate::walk::hashes(components@),
                i <= components.len(),
                self@.resolve_from(at, hashes, i as int) == self@.resolve(hashes),
            decreases components.len() - i,
        {
            match self.find_subnode(at, components[i].name_hash) {
                Some(id) => { at = id; },
                None => { return None; },
            }
            i += 1;
        }
        Some(at)
    }

    /// Whether `id` is `top` or lies below it.
    fn is_within(&self, id: NodeID, top: NodeID) -> (inside: bool)
        requires
            self@.wf(),
            self@.has(id),
        ensures
            inside == self@.within(id, top),
    {
        let ghost tree = self@;
        let ghost rank = choose|rank: Seq<nat>| tree.ranked(rank);
        let ghost mut steps: nat = 0;
        let mut at: NodeID = id;
        while at != ROOT_NODE
            invariant
                tree == self@,
                tree.wf(),
                tree.ranked(rank),
                tree.has(at),
                at == tree.up(id, steps),
                forall|k: nat| k < steps ==> #[trigger] tree.up(id, k) != top,
            decreases rank[at as int],
        {
            if at == top {
                return true;
            }
            at = self.parent(at);
            proof {
                tree.lemma_up_step(id, steps);
                steps = steps + 1;
            }
        }
        proof {
            if tree.within(id, top) {
                let k = choose|k: nat| #[trigger] tree.up(id, k) == top;
                if k >= steps {
                    tree.lemma_up_add(id, steps, (k - steps) as nat);
                    tree.lemma_up_root((k - steps) as nat);
                }
            }
        }
        top == ROOT_NODE
    }

    /// Stages a node and everything below it for deletion.
    fn remove(&mut self, id: NodeID)
        requires
            old(self)@.wf(),
            old(self)@.has(id),
        ensures
            final(self)@ == old(self)@.removed(id),
    {
        let ghost tree = self@;
        let len: usize = self.slots.len();
        let mut inside: Vec<bool> = Vec::new();
        while inside.len() < len
            invariant
                tree == self@,
                tree.wf(),
                len == tree.entries.len(),
                inside.len() <= len,
                forall|i: int|
                    0 <= i < inside.len() ==> #[trigger] inside[i] == tree.within(i as NodeID, id),
            decreases len - inside.len(),
        {
            let i: usize = inside.len();
            inside.push(self.is_within(i as NodeID, id));
        }
        self.node_mark(id, StageMark::StagedDelete);
        let mut i: usize = 0;
        while i < len
            invariant
                tree.wf(),
                tree.has(id),
                len == tree.entries.len(),
                len == self@.entries.len(),
                inside.len() == len,
                i <= len,
                self@.dirty,
                self@.links == tree.links,
                forall|k: int|
                    0 <= k < len ==> #[trigger] inside[k] == tree.within(k as NodeID, id),
                forall|k: int|
                    0 <= k < len ==> #[trigger] self@.entries[k] == if k < i && tree.within(
                        k as NodeID,
                        id,
                    ) {
                        tree.removed(id).entries[k]
                    } else {
                        tree.marked(id, StageMark::StagedDelete).entries[k]
                    },
            decreases len - i,
        {
            if inside[i] {
                self.mark_slot(i as NodeID, StageMark::StagedDelete);
            }
            i += 1;
        }
        proof {
            tree.lemma_within_self(id);
            assert(self@.entries =~= tree.removed(id).entries);
        }
    }

    /// Hides what the path made of `components` leads to.
    pub fn delete(&mut self, components: &Vec<Component>) -> (hidden: Option<NodeID>)
        requires
            old(self)@.wf(),
            components@.len() > 0,
        ensures
            final(self)@.wf(),
            (DeleteOutcome { tree: final(self)@, hidden }) == old(self)@.deleted(
                crate::walk::hashes(components@),
            ),
    {
        match self.resolve(components) {
            Some(id) => {
                proof {
                    self@.lemma_resolved_node(crate::walk::hashes(components@));
                }
                assert(id < self.slots.len());
                if self.slots[id as usize].node.is_staged_delete() {
                    None
                } else {
                    proof {
                        self@.lemma_removed_wf(id);
                    }
                    self.remove(id);
                    Some(id)
                }
            },
            None => None,
        }
    }

    fn relink(&mut self, id: NodeID, parent: NodeID, name: String, name_hash: u64)
        requires
            old(self)@.has(id),
        ensures
            final(self)@ == old(self)@.relinked(id, parent, name@, name_hash),
    {
        assert(id < self.slots.len());
        let mut node = self.slots[id as usize].node;
        node.name_hash = name_hash;
        self.slots[id as usize] = Slot { node, parent, name };
        self.links.push(id);
        assert(self@.entries =~= old(self)@.relinked(id, parent, name@, name_hash).entries);
    }

    /// Hides the live child of `parent` with this name hash, if there is one.
    fn clear(&mut self, parent: NodeID, name_hash: u64)
        requires
            old(self)@.wf(),
        ensures
            final(self)@ == old(self)@.cleared(parent, name_hash),
    {
        if let Some(id) = self.find_subnode(parent, name_hash) {
            proof {
                self@.lemma_found(parent, name_hash);
            }
            assert(id < self.slots.len());
            if !self.slots[id as usize].node.is_staged_delete() {
                self.remove(id);
            }
        }
    }

    /// Moves a node to a place below `parent`, which is cleared for it.
    fn settle(&mut self, id: NodeID, parent: NodeID, component: Component)
        requires
            old(self)@.wf(),
            ({
                let cleared = old(self)@.cleared(parent, component.name_hash);
                &&& cleared.wf()
                &&& cleared.has(id)
                &&& id != ROOT_NODE
                &&& cleared.open_directory(parent)
                &&& !cleared.within(parent, id)
                &&& cleared.vacant(parent, component.name_hash)
            }),
        ensures
            final(self)@.wf(),
            final(self)@ == old(self)@.cleared(parent, component.name_hash).moved(
                id,
                parent,
                component.name@,
                component.name_hash,
            ),
    {
        self.clear(parent, component.name_hash);
        proof {
            self@.lemma_moved_wf(id, parent, component.name@, component.name_hash);
        }
        self.node_mark(id, StageMark::StagedMove);
        self.relink(id, parent, component.name, component.name_hash);
        self.node_mark(id, StageMark::StagedMove);
    }

    /// Moves what one path leads to to another path. A live node that is
    /// there already is hidden, and the directories on the way are made if
    /// they are missing.
    pub fn relocate(&mut self, from: &Vec<Component>, to: Vec<Component>) -> (result: Result<
        NodeID,
        StateError,
    >)
        requires
            old(self)@.wf(),
        ensures
            final(self)@.wf(),
            ({
                let outcome = old(self)@.relocated(
                    crate::walk::hashes(from@),
                    crate::walk::names(to@),
                    crate::walk::hashes(to@),
                );
                &&& final(self)@ == outcome.tree
                &&& crate::errors::reports_move(
                    result,
                    outcome.result,
                    crate::walk::names(to@),
                )
            }),
    {
        let ghost from_hashes = crate::walk::hashes(from@);
        let ghost to_hashes = crate::walk::hashes(to@);
        let ghost to_names = crate::walk::names(to@);
        let ghost before = self@;
        if from.len() == 0 || to.len() == 0 {
            return Err(StateError::invalid("cannot move the repository root"));
        }
        let id: NodeID = match self.resolve(from) {
            Some(id) => id,
            None => { return Err(StateError::NodeNotFound); },
        };
        proof {
            self@.lemma_resolved_node(from_hashes);
        }
        assert(id < self.slots.len());
        if self.slots[id as usize].node.is_staged_delete() {
            return Err(StateError::NodeNotFound);
        }
        if starts_with(&to, from) {
            if from.len() == to.len() {
                assert(from_hashes =~= to_hashes);
                return Ok(id);
            }
            assert(from_hashes != to_hashes);
            return Err(
                StateError::invalid(
                    "cannot move a node into itself or over a directory that holds it",
                ),
            );
        }
        assert(from_hashes != to_hashes);
        if starts_with(from, &to) {
            return Err(
                StateError::invalid(
                    "cannot move a node into itself or over a directory that holds it",
                ),
            );
        }
        let mut directories = to;
        let last = match directories.pop() {
            Some(last) => last,
            None => { return Err(StateError::NodeNotFound); },
        };
        proof {
            assert(crate::walk::hashes(directories@) =~= to_hashes.drop_last());
            assert(crate::walk::names(directories@) =~= to_names.drop_last());
        }
        let ghost plan = Plan { hashes: to_hashes.drop_last(), target: Target::Directory };
        let parent: NodeID = match self.stage(directories, Target::Directory) {
            Ok(parent) => parent,
            Err(error) => { return Err(error); },
        };
        let ghost middle = self@;
        proof {
            before.lemma_stage_from(ROOT_NODE, to_names.drop_last(), plan, 0);
            before.lemma_kept_resolve(middle, ROOT_NODE, from_hashes, 0);
            middle.lemma_cleared(from_hashes, to_hashes, id, parent);
        }
        self.settle(id, parent, last);
        Ok(id)
    }
}

/// Whether the name hashes of `path` begin with those of `start`.
fn starts_with(path: &Vec<Component>, start: &Vec<Component>) -> (starts: bool)
    ensures
        starts == crate::walk::hashes(start@).is_prefix_of(crate::walk::hashes(path@)),
{
    let ghost whole = crate::walk::hashes(path@);
    let ghost part = crate::walk::hashes(start@);
    if start.len() > path.len() {
        return false;
    }
    let mut i: usize = 0;
    while i < start.len()
        invariant
            whole == crate::walk::hashes(path@),
            part == crate::walk::hashes(start@),
            i <= start.len() <= path.len(),
            forall|k: int| 0 <= k < i ==> part[k] == whole[k],
        decreases start.len() - i,
    {
        if start[i].name_hash != path[i].name_hash {
            assert(part[i as int] != whole.subrange(0, part.len() as int)[i as int]);
            return false;
        }
        i += 1;
    }
    assert(part =~= whole.subrange(0, part.len() as int));
    true
}

} // verus!
