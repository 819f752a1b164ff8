//! What becomes of a tree when a walk's actions are performed on it.

use vstd::prelude::*;
use crate::errors::Refusal;
use crate::node::NodeID;
use crate::tree::{Outcome, Tree};
use crate::walk::{Action, Cursor, Edit, Event, Phase, Plan, WalkError};

verus! {

impl Tree {
    /// The tree after an action, and the event that reports it.
    pub open spec fn answer<E>(self, names: Seq<Seq<char>>, action: Action<E>) -> (Tree, Event<E>) {
        match action {
            Action::Find { parent, name_hash } => (
                self,
                match self.find(parent, name_hash) {
                    Some(id) => Event::Found(id),
                    None => Event::NotFound,
                },
            ),
            Action::Load { node } => (self, Event::Loaded(self.node(node))),
            Action::Rewrite { node, edit } => (
                self.edited(node, edit),
                Event::Rewritten { dirtied: !self.dirty },
            ),
            Action::NoteModified { node } => (self.noted(), Event::Noted),
            Action::Add { parent, record, component } => (
                self.added(parent, record, names[component as int]),
                Event::Added(self.next_id()),
            ),
            Action::Mark { node, mark } => (self.marked(node, mark), Event::Marked),
            Action::Finish(_) => arbitrary(),
        }
    }

    /// The cursor and its action stand in this tree where the walk to `goal`
    /// leads: performing the rest of the walk ends in `goal`.
    pub open spec fn on_course<E>(
        self,
        names: Seq<Seq<char>>,
        plan: Plan,
        cursor: Cursor,
        action: Action<E>,
        goal: Outcome,
    ) -> bool {
        let index = cursor.index as int;
        let parent = cursor.parent;
        let content = plan.content(index);
        let found = self.find(parent, plan.hashes[index]);
        let here = self.open_directory(parent) && goal == self.stage_from(
            parent,
            names,
            plan,
            index,
        );
        let usable = |id: NodeID|
            self.has(id) && self.live(id) && crate::walk::suits(self.node(id), content);
        &&& self.wf()
        &&& names.len() == plan.hashes.len()
        &&& cursor.phase is Finished || index < names.len()
        &&& match cursor.phase {
            Phase::Finding => {
                &&& here
                &&& action == Action::<E>::Find { parent, name_hash: plan.hashes[index] }
            },
            Phase::Loading(id) => {
                &&& here
                &&& found == Some(id)
                &&& action == Action::<E>::Load { node: id }
            },
            Phase::Rewriting(id) => {
                &&& here
                &&& found == Some(id)
                &&& crate::walk::suits(self.node(id), content)
                &&& content is Some || !self.live(id)
                &&& action == Action::<E>::Rewrite {
                    node: id,
                    edit: Edit { undelete: !self.live(id), content },
                }
            },
            Phase::Noting(id) => {
                &&& usable(id)
                &&& goal == self.noted().marked(id, crate::walk::mark_of_old(content)).stage_from(
                    id,
                    names,
                    plan,
                    index + 1,
                )
                &&& action == Action::<E>::NoteModified { node: id }
            },
            Phase::Adding => {
                &&& here
                &&& found matches Some(id) ==> !self.live(id) && !crate::walk::suits(
                    self.node(id),
                    content,
                )
                &&& action == Action::<E>::Add {
                    parent,
                    record: crate::walk::fresh(plan.hashes[index], content),
                    component: cursor.index,
                }
            },
            Phase::Marking(id) => {
                &&& usable(id)
                &&& action matches Action::Mark { node, mark } && node == id && mark
                    !is StagedDelete && goal == self.marked(id, mark).stage_from(
                    id,
                    names,
                    plan,
                    index + 1,
                )
            },
            Phase::Finished => {
                action matches Action::Finish(result) && match result {
                    Ok(id) => goal == (Outcome { tree: self, result: Ok(id) }),
                    Err(WalkError::Refused(refusal)) => {
                        &&& goal == (Outcome { tree: self, result: Err(refusal) })
                        &&& refusal matches Refusal::NotAFile { component } ==> component
                            < names.len()
                        &&& refusal matches Refusal::NotADirectory { component } ==> component
                            < names.len()
                    },
                    Err(WalkError::Store(_)) => false,
                }
            },
        }
    }

    /// A walk starts on course for what staging its path means.
    pub proof fn lemma_begin<E>(self, names: Seq<Seq<char>>, plan: Plan)
        requires
            self.wf(),
            names.len() == plan.hashes.len(),
            names.len() <= usize::MAX,
        ensures
            ({
                let (cursor, action) = crate::walk::begin::<E>(plan);
                self.on_course(names, plan, cursor, action, self.staged(names, plan))
            }),
    {
    }
}

/// How much a walk in this phase still does for its component.
pub open spec fn phase_rank(phase: Phase) -> nat {
    match phase {
        Phase::Finding => 6,
        Phase::Loading(_) => 5,
        Phase::Rewriting(_) => 4,
        Phase::Adding => 4,
        Phase::Noting(_) => 3,
        Phase::Marking(_) => 2,
        Phase::Finished => 0,
    }
}

impl Tree {
    /// The component at the cursor is done, and `id` stands for it.
    proof fn lemma_enter<E>(
        self,
        names: Seq<Seq<char>>,
        plan: Plan,
        index: usize,
        id: NodeID,
        goal: Outcome,
    )
        requires
            self.wf(),
            names.len() == plan.hashes.len(),
            index < names.len() <= usize::MAX,
            self.has(id),
            self.live(id),
            crate::walk::suits(self.node(id), plan.content(index as int)),
            goal == self.stage_from(id, names, plan, index + 1),
        ensures
            ({
                let (cursor, action) = crate::walk::enter::<E>(plan, (index + 1) as usize, id);
                self.on_course(names, plan, cursor, action, goal)
            }),
    {
    }

    /// A walk that is on course stays on course when its action is performed
    /// on the tree.
    pub proof fn lemma_step<E>(
        self,
        names: Seq<Seq<char>>,
        plan: Plan,
        cursor: Cursor,
        action: Action<E>,
        goal: Outcome,
    )
        requires
            self.on_course(names, plan, cursor, action, goal),
            action !is Finish,
            self.entries.len() < u64::MAX || action !is Add,
            names.len() <= usize::MAX,
        ensures
            ({
                let (tree, event) = self.answer(names, action);
                let (after, following) = crate::walk::next(plan, cursor, event);
                &&& crate::walk::fits(cursor.phase, event)
                &&& tree.on_course(names, plan, after, following, goal)
                &&& after.index > cursor.index || (after.index == cursor.index && phase_rank(
                    after.phase,
                ) < phase_rank(cursor.phase))
                &&& after.index <= names.len()
            }),
    {
        let index = cursor.index as int;
        let parent = cursor.parent;
        let content = plan.content(index);
        let hash = plan.hashes[index];
        let (tree, event) = self.answer(names, action);
        self.lemma_found(parent, hash);
        match cursor.phase {
            Phase::Finding => {},
            Phase::Loading(id) => {
                if crate::walk::suits(self.node(id), content) && content is None && self.live(id) {
                    self.lemma_enter::<E>(names, plan, cursor.index, id, goal);
                }
            },
            Phase::Rewriting(id) => {
                let edit = Edit { undelete: !self.live(id), content };
                self.lemma_edited_wf(id, edit);
                if self.dirty {
                    assert(tree.noted() == tree);
                }
            },
            Phase::Noting(id) => {
                self.lemma_noted_shape();
                self.lemma_same_shape(self.noted());
                assert(tree.has(id));
            },
            Phase::Adding => {
                self.lemma_vacant(parent, hash);
                let record = crate::walk::fresh(hash, content);
                self.lemma_added_wf(parent, record, names[index]);
            },
            Phase::Marking(id) => {
                let mark = action->mark;
                self.lemma_marked_shape(id, mark);
                self.lemma_same_shape(tree);
                assert(tree.has(id));
                tree.lemma_enter::<E>(names, plan, cursor.index, id, goal);
            },
            Phase::Finished => {},
        }
    }
}

} // verus!
