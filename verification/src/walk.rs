//! The walk from the root to the last component of a path, one decision at a
//! time.
//!
//! A walk never touches a tree itself. It says what it wants done next as an
//! [`Action`], and goes on when it is told, as an [`Event`], how that ended.
//! Whoever holds the tree performs the actions, at once or by waiting for a
//! store.

use vstd::prelude::*;
use crate::direct_write::{LeafContent, fresh_node, update_leaf};
use crate::errors::Refusal;
use crate::node::{Node, NodeFlags, NodeID, ROOT_NODE, StageMark};

verus! {

/// One name of a path, with the hash under which the tree knows it.
#[derive(Debug, PartialEq, Eq)]
pub struct Component {
    pub name: String,
    pub name_hash: u64,
}

/// What the last component of the path is to be.
#[derive(Debug, Clone, Copy, PartialEq, Eq, Structural)]
pub enum Target {
    Leaf(LeafContent),
    Directory,
}

/// A change to an existing node, made in place.
#[derive(Debug, Clone, Copy, PartialEq, Eq, Structural)]
pub struct Edit {
    /// Bring the node back from a staged delete.
    pub undelete: bool,
    /// Replace the content facts.
    pub content: Option<LeafContent>,
}

/// What the walk wants done.
#[derive(Debug)]
pub enum Action<E> {
    /// Look for the child of `parent` with this name hash.
    Find { parent: NodeID, name_hash: u64 },
    /// Read a node.
    Load { node: NodeID },
    /// Apply `edit` to a node, and report whether its block was clean before.
    Rewrite { node: NodeID, edit: Edit },
    /// Record that the node's block, and the tree, have been modified.
    NoteModified { node: NodeID },
    /// Add `record` below `parent`, under the name of the given component.
    Add { parent: NodeID, record: Node, component: usize },
    /// Put `mark` on a node and stage all its ancestors.
    Mark { node: NodeID, mark: StageMark },
    /// Nothing more: this is how the walk ended.
    Finish(Result<NodeID, WalkError<E>>),
}

/// How an action ended.
#[derive(Debug)]
pub enum Event<E> {
    Found(NodeID),
    NotFound,
    Loaded(Node),
    Rewritten { dirtied: bool },
    Noted,
    Added(NodeID),
    Marked,
    /// The store could not do it.
    Failed(E),
}

/// Why a walk did not reach its end.
#[derive(Debug, PartialEq, Eq)]
pub enum WalkError<E> {
    Refused(Refusal),
    Store(E),
}

/// What the walk waits for.
#[derive(Debug, Clone, Copy, PartialEq, Eq, Structural)]
pub enum Phase {
    Finding,
    Loading(NodeID),
    Rewriting(NodeID),
    Noting(NodeID),
    Adding,
    Marking(NodeID),
    Finished,
}

/// How far the walk has come: the component it is at, the node that the
/// components before it lead to, and what it waits for.
#[derive(Debug, Clone, Copy, PartialEq, Eq, Structural)]
pub struct Cursor {
    pub index: usize,
    pub parent: NodeID,
    pub phase: Phase,
}

/// What a walk is for: the name hashes of the path and its target.
pub struct Plan {
    pub hashes: Seq<u64>,
    pub target: Target,
}

/// A walk along `components`.
#[derive(Debug)]
pub struct Walk {
    pub components: Vec<Component>,
    pub target: Target,
    pub cursor: Cursor,
}

/// The name hashes of `components`.
pub open spec fn hashes(components: Seq<Component>) -> Seq<u64> {
    components.map_values(|c: Component| c.name_hash)
}

/// The names of `components`.
pub open spec fn names(components: Seq<Component>) -> Seq<Seq<char>> {
    components.map_values(|c: Component| c.name@)
}

impl Edit {
    /// The node after the edit.
    pub open spec fn applied(self, node: Node) -> Node {
        let restored = if self.undelete {
            Node {
                flags: NodeFlags { staged_delete: false, ..node.flags },
                ..node
            }
        } else {
            node
        };
        match self.content {
            Some(content) => crate::direct_write::rewritten_leaf(restored, content),
            None => restored,
        }
    }

    /// Applies the edit in place.
    pub fn apply(self, node: &mut Node)
        ensures
            *final(node) == self.applied(*old(node)),
            final(node).name_hash == old(node).name_hash,
            final(node).flags == (NodeFlags {
                staged_delete: old(node).flags.staged_delete && !self.undelete,
                ..old(node).flags
            }),
            match self.content {
                Some(content) => crate::walk_laws::holds(*final(node), *old(node), content),
                None => crate::frame::same_content(*old(node), *final(node)),
            },
    {
        if self.undelete {
            node.flags.staged_delete = false;
        }
        if let Some(content) = self.content {
            update_leaf(node, content);
        }
    }
}

impl Plan {
    /// The content that the component with this index gets: only the last
    /// one of a path to a leaf gets any, all others are directories.
    pub open spec fn content(self, index: int) -> Option<LeafContent> {
        match self.target {
            Target::Leaf(content) if index == self.hashes.len() - 1 => Some(content),
            _ => None,
        }
    }
}

/// Whether a node of this kind can stand where `content` goes.
pub open spec fn suits(node: Node, content: Option<LeafContent>) -> bool {
    if content is Some {
        node.file()
    } else {
        node.directory()
    }
}

/// The record that is added where `content` goes.
pub open spec fn fresh(name_hash: u64, content: Option<LeafContent>) -> Node {
    match content {
        Some(content) => crate::direct_write::new_leaf(name_hash, content),
        None => crate::direct_write::new_directory(name_hash),
    }
}

/// The mark of a node that was added for `content`.
pub open spec fn mark_of_new(content: Option<LeafContent>) -> StageMark {
    if content is Some {
        StageMark::StagedAdd
    } else {
        StageMark::Staged
    }
}

/// The mark of a node that was there and was changed for `content`.
pub open spec fn mark_of_old(content: Option<LeafContent>) -> StageMark {
    if content is Some {
        StageMark::StagedModify
    } else {
        StageMark::Staged
    }
}

/// The refusal where a live node cannot stand where `content` goes.
pub open spec fn refusal(content: Option<LeafContent>, index: usize) -> Refusal {
    if content is Some {
        Refusal::NotAFile { component: index }
    } else {
        Refusal::NotADirectory { component: index }
    }
}

/// Going on to the component with this index, below `parent`.
pub open spec fn enter<E>(plan: Plan, index: usize, parent: NodeID) -> (Cursor, Action<E>) {
    if index < plan.hashes.len() {
        (
            Cursor { index, parent, phase: Phase::Finding },
            Action::Find { parent, name_hash: plan.hashes[index as int] },
        )
    } else {
        (Cursor { index, parent, phase: Phase::Finished }, Action::Finish(Ok(parent)))
    }
}

/// The first action of a walk. The root can be a directory, but no leaf.
pub open spec fn begin<E>(plan: Plan) -> (Cursor, Action<E>) {
    if plan.hashes.len() == 0 && plan.target is Leaf {
        (
            Cursor { index: 0, parent: ROOT_NODE, phase: Phase::Finished },
            Action::Finish(Err(WalkError::Refused(Refusal::RepositoryRoot))),
        )
    } else {
        enter(plan, 0, ROOT_NODE)
    }
}

/// The events that can end what a walk in this phase waits for.
pub open spec fn fits<E>(phase: Phase, event: Event<E>) -> bool {
    match phase {
        Phase::Finding => event is Found || event is NotFound || event is Failed,
        Phase::Loading(_) => event is Loaded || event is Failed,
        Phase::Rewriting(_) => event is Rewritten || event is Failed,
        Phase::Noting(_) => event is Noted || event is Failed,
        Phase::Adding => event is Added || event is Failed,
        Phase::Marking(_) => event is Marked || event is Failed,
        Phase::Finished => false,
    }
}

/// Adding the missing component at the cursor.
pub open spec fn add_here<E>(plan: Plan, cursor: Cursor) -> (Cursor, Action<E>) {
    (
        Cursor { phase: Phase::Adding, ..cursor },
        Action::Add {
            parent: cursor.parent,
            record: fresh(
                plan.hashes[cursor.index as int],
                plan.content(cursor.index as int),
            ),
            component: cursor.index,
        },
    )
}

/// Marking `node` for the component at the cursor.
pub open spec fn mark_here<E>(cursor: Cursor, node: NodeID, mark: StageMark) -> (
    Cursor,
    Action<E>,
) {
    (Cursor { phase: Phase::Marking(node), ..cursor }, Action::Mark { node, mark })
}

/// Where a walk goes from `cursor` on `event`, and what it wants done there.
///
/// A component that is missing is added. One that is there in the right kind
/// is used: a leaf gets its new content, a directory is left as it is, and
/// either is brought back if it was staged for deletion. A node of the wrong
/// kind is passed over when it is staged for deletion, and ends the walk when
/// it is live. A failure of the store ends the walk.
pub open spec fn next<E>(plan: Plan, cursor: Cursor, event: Event<E>) -> (Cursor, Action<E>) {
    let finished = Cursor { phase: Phase::Finished, ..cursor };
    let content = plan.content(cursor.index as int);
    match (cursor.phase, event) {
        (_, Event::Failed(error)) => (finished, Action::Finish(Err(WalkError::Store(error)))),
        (Phase::Finding, Event::Found(node)) => (
            Cursor { phase: Phase::Loading(node), ..cursor },
            Action::Load { node },
        ),
        (Phase::Finding, _) => add_here(plan, cursor),
        (Phase::Loading(id), Event::Loaded(node)) => {
            if suits(node, content) {
                if content is Some || !node.live() {
                    (
                        Cursor { phase: Phase::Rewriting(id), ..cursor },
                        Action::Rewrite {
                            node: id,
                            edit: Edit { undelete: !node.live(), content },
                        },
                    )
                } else {
                    enter(plan, (cursor.index + 1) as usize, id)
                }
            } else if node.live() {
                (
                    finished,
                    Action::Finish(Err(WalkError::Refused(refusal(content, cursor.index)))),
                )
            } else {
                add_here(plan, cursor)
            }
        },
        (Phase::Rewriting(id), Event::Rewritten { dirtied: true }) => (
            Cursor { phase: Phase::Noting(id), ..cursor },
            Action::NoteModified { node: id },
        ),
        (Phase::Rewriting(id), _) => mark_here(cursor, id, mark_of_old(content)),
        (Phase::Noting(id), _) => mark_here(cursor, id, mark_of_old(content)),
        (Phase::Adding, Event::Added(id)) => mark_here(cursor, id, mark_of_new(content)),
        (Phase::Marking(id), _) => enter(plan, (cursor.index + 1) as usize, id),
        (_, _) => arbitrary(),
    }
}

impl Walk {
    pub open spec fn plan(self) -> Plan {
        Plan { hashes: hashes(self.components@), target: self.target }
    }

    /// Whether the walk can go on with `event` now.
    pub open spec fn awaits<E>(self, event: Event<E>) -> bool {
        self.cursor.index < self.components@.len() && fits(self.cursor.phase, event)
    }

    /// Whether the walk can go on with `event` now.
    pub fn expects<E>(&self, event: &Event<E>) -> (expected: bool)
        ensures
            expected == self.awaits(*event),
    {
        if self.cursor.index >= self.components.len() {
            return false;
        }
        match (self.cursor.phase, event) {
            (Phase::Finished, _) => false,
            (_, Event::Failed(_)) => true,
            (Phase::Finding, Event::Found(_)) => true,
            (Phase::Finding, Event::NotFound) => true,
            (Phase::Loading(_), Event::Loaded(_)) => true,
            (Phase::Rewriting(_), Event::Rewritten { .. }) => true,
            (Phase::Noting(_), Event::Noted) => true,
            (Phase::Adding, Event::Added(_)) => true,
            (Phase::Marking(_), Event::Marked) => true,
            (_, _) => false,
        }
    }

    /// Starts a walk along `components`.
    pub fn begin<E>(components: Vec<Component>, target: Target) -> (started: (Walk, Action<E>))
        ensures
            started.0.components == components,
            started.0.target == target,
            (started.0.cursor, started.1) == begin::<E>(started.0.plan()),
    {
        let mut walk = Walk {
            components,
            target,
            cursor: Cursor { index: 0, parent: ROOT_NODE, phase: Phase::Finished },
        };
        if walk.components.len() == 0 {
            if let Target::Leaf(_) = walk.target {
                return (walk, Action::Finish(Err(WalkError::Refused(Refusal::RepositoryRoot))));
            }
        }
        let action = walk.enter(0, ROOT_NODE);
        (walk, action)
    }

    fn enter<E>(&mut self, index: usize, parent: NodeID) -> (action: Action<E>)
        ensures
            final(self).components == old(self).components,
            final(self).target == old(self).target,
            (final(self).cursor, action) == enter::<E>(old(self).plan(), index, parent),
    {
        if index < self.components.len() {
            self.cursor = Cursor { index, parent, phase: Phase::Finding };
            Action::Find { parent, name_hash: self.components[index].name_hash }
        } else {
            self.cursor = Cursor { index, parent, phase: Phase::Finished };
            Action::Finish(Ok(parent))
        }
    }

    /// The content that goes to the component the walk is at.
    fn content(&self) -> (content: Option<LeafContent>)
        requires
            self.cursor.index < self.components@.len(),
        ensures
            content == self.plan().content(self.cursor.index as int),
    {
        match self.target {
            Target::Leaf(content) => if self.cursor.index == self.components.len() - 1 {
                Some(content)
            } else {
                None
            },
            Target::Directory => None,
        }
    }

    fn add_here<E>(&mut self) -> (action: Action<E>)
        requires
            old(self).cursor.index < old(self).components@.len(),
        ensures
            final(self).components == old(self).components,
            final(self).target == old(self).target,
            (final(self).cursor, action) == add_here::<E>(old(self).plan(), old(self).cursor),
    {
        let index: usize = self.cursor.index;
        let record = fresh_node(self.components[index].name_hash, self.content());
        self.cursor.phase = Phase::Adding;
        Action::Add { parent: self.cursor.parent, record, component: index }
    }

    fn mark_here<E>(&mut self, node: NodeID, mark: StageMark) -> (action: Action<E>)
        ensures
            final(self).components == old(self).components,
            final(self).target == old(self).target,
            (final(self).cursor, action) == mark_here::<E>(old(self).cursor, node, mark),
    {
        self.cursor.phase = Phase::Marking(node);
        Action::Mark { node, mark }
    }

    fn mark_changed<E>(&mut self, node: NodeID) -> (action: Action<E>)
        requires
            old(self).cursor.index < old(self).components@.len(),
        ensures
            final(self).components == old(self).components,
            final(self).target == old(self).target,
            (final(self).cursor, action) == mark_here::<E>(
                old(self).cursor,
                node,
                mark_of_old(old(self).plan().content(old(self).cursor.index as int)),
            ),
    {
        let mark = if self.content().is_some() {
            StageMark::StagedModify
        } else {
            StageMark::Staged
        };
        self.mark_here(node, mark)
    }

    /// Decides about the node that the current component leads to.
    fn loaded<E>(&mut self, id: NodeID, node: Node) -> (action: Action<E>)
        requires
            old(self).cursor.index < old(self).components@.len(),
            old(self).cursor.phase == Phase::Loading(id),
        ensures
            final(self).components == old(self).components,
            final(self).target == old(self).target,
            (final(self).cursor, action) == next(
                old(self).plan(),
                old(self).cursor,
                Event::<E>::Loaded(node),
            ),
    {
        let content = self.content();
        let index: usize = self.cursor.index;
        let deleted = node.is_staged_delete();
        let suitable = if content.is_some() {
            node.is_file()
        } else {
            node.is_directory()
        };
        if suitable {
            if content.is_some() || deleted {
                self.cursor.phase = Phase::Rewriting(id);
                Action::Rewrite { node: id, edit: Edit { undelete: deleted, content } }
            } else {
                assert(index < self.components.len());
                self.enter(index + 1, id)
            }
        } else if deleted {
            self.add_here()
        } else {
            self.cursor.phase = Phase::Finished;
            let refusal = if content.is_some() {
                Refusal::NotAFile { component: index }
            } else {
                Refusal::NotADirectory { component: index }
            };
            Action::Finish(Err(WalkError::Refused(refusal)))
        }
    }

    /// Goes on with the outcome of the last action.
    pub fn step<E>(&mut self, event: Event<E>) -> (action: Action<E>)
        requires
            old(self).awaits(event),
        ensures
            final(self).components == old(self).components,
            final(self).target == old(self).target,
            (final(self).cursor, action) == next(old(self).plan(), old(self).cursor, event),
    {
        match (self.cursor.phase, event) {
            (_, Event::Failed(error)) => {
                self.cursor.phase = Phase::Finished;
                Action::Finish(Err(WalkError::Store(error)))
            },
            (Phase::Finding, Event::Found(id)) => {
                self.cursor.phase = Phase::Loading(id);
                Action::Load { node: id }
            },
            (Phase::Loading(id), Event::Loaded(node)) => self.loaded(id, node),
            (Phase::Rewriting(id), Event::Rewritten { dirtied }) => if dirtied {
                self.cursor.phase = Phase::Noting(id);
                Action::NoteModified { node: id }
            } else {
                self.mark_changed(id)
            },
            (Phase::Noting(id), _) => self.mark_changed(id),
            (Phase::Adding, Event::Added(id)) => {
                let mark = if self.content().is_some() {
                    StageMark::StagedAdd
                } else {
                    StageMark::Staged
                };
                self.mark_here(id, mark)
            },
            (Phase::Marking(id), _) => {
                let index: usize = self.cursor.index;
                assert(index < self.components.len());
                self.enter(index + 1, id)
            },
            // All that is left is a component that was looked for in vain.
            (_, _) => self.add_here(),
        }
    }
}

} // verus!
