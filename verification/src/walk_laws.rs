//! What a walk decides on each event, and what changes to a record change.

use vstd::prelude::*;
use crate::direct_write::LeafContent;
use crate::errors::Refusal;
use crate::node::{Node, NodeFlags, NodeID, ROOT_NODE, StageMark, TRUSTED_CONTENT_MARKER};
use crate::walk::{Action, Cursor, Edit, Event, Phase, Plan, Target, WalkError};

verus! {

/// A node is a file or a directory, never both, and neither if it is a link.
/// What has been staged on it has no part in that.
pub proof fn law_kind_goes_by_two_flags(node: Node)
    ensures
        node.file() <==> node.flags.file && !node.flags.link,
        node.directory() <==> !node.flags.file && !node.flags.link,
        node.live() <==> !node.flags.staged_delete,
{
}

/// A mark adds the flag that it is called after and that of something staged,
/// and changes nothing else about a node.
pub proof fn law_mark_only_adds(node: Node, mark: StageMark)
    ensures
        ({
            let after = node.marked(mark);
            let old = node.flags;
            &&& after.flags == NodeFlags {
                file: old.file,
                link: old.link,
                staged: true,
                staged_add: old.staged_add || mark == StageMark::StagedAdd,
                staged_modify: old.staged_modify || mark == StageMark::StagedModify,
                staged_delete: old.staged_delete || mark == StageMark::StagedDelete,
                staged_move: old.staged_move || mark == StageMark::StagedMove,
            }
            &&& after.mode == node.mode
            &&& after.name_hash == node.name_hash
            &&& after.size == node.size
            &&& after.address == node.address
            &&& after.reserved == node.reserved
        }),
{
}

/// An edit keeps a node's name and every flag but that of a staged delete,
/// which it only ever clears. It replaces the content where it brings any, and
/// keeps the file's identity where the content brings none.
pub proof fn law_edit_keeps_marks(node: Node, edit: Edit)
    ensures
        ({
            let after = edit.applied(node);
            &&& after.name_hash == node.name_hash
            &&& after.flags.file == node.flags.file
            &&& after.flags.link == node.flags.link
            &&& after.flags.staged == node.flags.staged
            &&& after.flags.staged_add == node.flags.staged_add
            &&& after.flags.staged_modify == node.flags.staged_modify
            &&& after.flags.staged_move == node.flags.staged_move
            &&& after.flags.staged_delete == (node.flags.staged_delete && !edit.undelete)
            &&& match edit.content {
                Some(content) => holds(after, node, content),
                None => {
                    &&& after.mode == node.mode
                    &&& after.size == node.size
                    &&& after.address == node.address
                    &&& after.reserved == node.reserved
                },
            }
        }),
{
}

/// `after` holds `content`, with the identity that `before` had if the content
/// brings none.
pub open spec fn holds(after: Node, before: Node, content: LeafContent) -> bool {
    &&& after.mode == content.mode
    &&& after.size == content.size
    &&& after.address.hash == content.address.hash
    &&& after.address.context.id == if content.address.context.id == 0 {
        before.address.context.id
    } else {
        content.address.context.id
    }
    &&& after.reserved == TRUSTED_CONTENT_MARKER
}

/// Replacing a leaf's content leaves its flags and its name alone.
pub proof fn law_rewrite_leaves_flags_alone(node: Node, content: LeafContent)
    ensures
        crate::direct_write::rewritten_leaf(node, content).flags == node.flags,
        crate::direct_write::rewritten_leaf(node, content).name_hash == node.name_hash,
        ({
            let after = crate::direct_write::rewritten_leaf(node, content);
            &&& holds(after, node, content)
            &&& after.mode == content.mode
            &&& after.size == content.size
            &&& after.address.hash == content.address.hash
            &&& content.address.context.id == 0 ==> after.address.context == node.address.context
            &&& content.address.context.id != 0 ==> after.address.context
                == content.address.context
            &&& after.reserved == TRUSTED_CONTENT_MARKER
        }),
{
}

/// What a walk adds stands for the component that the walk is at: it goes
/// below the node that the components before it lead to, under that
/// component's own name and name hash. It is a file with the content where a
/// leaf is wanted, and an empty directory elsewhere, with nothing staged on it
/// yet.
pub proof fn law_walk_adds_at_its_cursor<E>(plan: Plan, cursor: Cursor, event: Event<E>)
    requires
        cursor.index < plan.hashes.len(),
        crate::walk::fits(cursor.phase, event),
    ensures
        crate::walk::next(plan, cursor, event).1 matches Action::Add {
            parent,
            record,
            component,
        } ==> {
            let leaf = plan.target is Leaf && cursor.index == plan.hashes.len() - 1;
            &&& component == cursor.index
            &&& parent == cursor.parent
            &&& record.name_hash == plan.hashes[cursor.index as int]
            &&& record.flags == NodeFlags {
                file: leaf,
                link: false,
                staged: false,
                staged_add: false,
                staged_modify: false,
                staged_delete: false,
                staged_move: false,
            }
            &&& leaf ==> {
                &&& record.mode == plan.target->Leaf_0.mode
                &&& record.size == plan.target->Leaf_0.size
                &&& record.address == plan.target->Leaf_0.address
                &&& record.reserved == TRUSTED_CONTENT_MARKER
            }
            &&& !leaf ==> {
                &&& record.mode == 0
                &&& record.size == 0
                &&& record.address.hash.high == 0
                &&& record.address.hash.low == 0
                &&& record.address.context.id == 0
                &&& record.reserved == 0
            }
        },
{
}

/// A walk loads what was found, and adds what was not.
pub proof fn law_walk_after_lookup<E>(plan: Plan, cursor: Cursor, id: NodeID)
    requires
        cursor.index < plan.hashes.len(),
        cursor.phase is Finding,
    ensures
        crate::walk::next(plan, cursor, Event::<E>::Found(id)) == (
            Cursor { index: cursor.index, parent: cursor.parent, phase: Phase::Loading(id) },
            Action::<E>::Load { node: id },
        ),
        ({
            let (after, action) = crate::walk::next(plan, cursor, Event::<E>::NotFound);
            &&& after == (Cursor {
                index: cursor.index,
                parent: cursor.parent,
                phase: Phase::Adding,
            })
            &&& action is Add
        }),
{
}

/// What a walk does with a node that is there. One of the kind that the path
/// asks for is used: a leaf is rewritten with the content, a directory is gone
/// through, and either is brought back if it was staged for deletion. One of
/// another kind ends the walk, and the refusal names the component; but if it
/// is staged for deletion, it is passed over and a new node is added.
pub proof fn law_walk_after_load<E>(plan: Plan, cursor: Cursor, id: NodeID, node: Node)
    requires
        cursor.index < plan.hashes.len() <= usize::MAX,
        cursor.phase == Phase::Loading(id),
    ensures
        ({
            let (after, action) = crate::walk::next(plan, cursor, Event::<E>::Loaded(node));
            let leaf = plan.target is Leaf && cursor.index == plan.hashes.len() - 1;
            let right = !node.flags.link && node.flags.file == leaf;
            let deleted = node.flags.staged_delete;
            let here = |phase: Phase| Cursor { index: cursor.index, parent: cursor.parent, phase };
            if right && (leaf || deleted) {
                &&& after == here(Phase::Rewriting(id))
                &&& action == Action::<E>::Rewrite {
                    node: id,
                    edit: Edit {
                        undelete: deleted,
                        content: if leaf {
                            Some(plan.target->Leaf_0)
                        } else {
                            None
                        },
                    },
                }
            } else if right {
                goes_on(plan, cursor, id, after, action)
            } else if deleted {
                after == here(Phase::Adding) && action is Add
            } else {
                &&& after.phase is Finished
                &&& action == Action::<E>::Finish(
                    Err(
                        WalkError::Refused(
                            if leaf {
                                Refusal::NotAFile { component: cursor.index }
                            } else {
                                Refusal::NotADirectory { component: cursor.index }
                            },
                        ),
                    ),
                )
            }
        }),
{
}

/// The walk goes on below `id`: it looks for the next component there, or
/// ends with `id` if there is none.
pub open spec fn goes_on<E>(
    plan: Plan,
    cursor: Cursor,
    id: NodeID,
    after: Cursor,
    action: Action<E>,
) -> bool {
    &&& after.index == cursor.index + 1
    &&& after.parent == id
    &&& if cursor.index + 1 < plan.hashes.len() {
        &&& after.phase is Finding
        &&& action == Action::<E>::Find {
            parent: id,
            name_hash: plan.hashes[cursor.index + 1],
        }
    } else {
        &&& after.phase is Finished
        &&& action == Action::<E>::Finish(Ok(id))
    }
}

/// Whenever a walk moves on, it moves on by one component: it looks for that
/// component's name hash below the node that stands for the one before, or,
/// after the last one, ends with that node.
pub proof fn law_walk_goes_on_to_the_next<E>(plan: Plan, cursor: Cursor, event: Event<E>)
    requires
        cursor.index < plan.hashes.len() <= usize::MAX,
        crate::walk::fits(cursor.phase, event),
    ensures
        ({
            let (after, action) = crate::walk::next(plan, cursor, event);
            let node = match cursor.phase {
                Phase::Loading(id) => id,
                Phase::Marking(id) => id,
                _ => cursor.parent,
            };
            &&& after.index == cursor.index || after.index == cursor.index + 1
            &&& after.index == cursor.index ==> after.parent == cursor.parent && action !is Find
                && !(action matches Action::Finish(Ok(_)))
            &&& after.index == cursor.index + 1 ==> after.parent == node && if after.index
                < plan.hashes.len() {
                action == Action::<E>::Find {
                    parent: node,
                    name_hash: plan.hashes[after.index as int],
                }
            } else {
                action == Action::<E>::Finish(Ok(node))
            }
            &&& event is Marked ==> after.index == cursor.index + 1
        }),
{
}

/// What was rewritten is noted if that made it dirty, and then marked, as
/// what was added is: a leaf as modified or as added, a directory as staged.
/// What was marked is gone on from.
pub proof fn law_walk_after_change<E>(plan: Plan, cursor: Cursor, id: NodeID)
    requires
        cursor.index < plan.hashes.len() <= usize::MAX,
    ensures
        ({
            let leaf = plan.target is Leaf && cursor.index == plan.hashes.len() - 1;
            let here = |phase: Phase| Cursor { index: cursor.index, parent: cursor.parent, phase };
            let changed = Action::<E>::Mark {
                node: id,
                mark: if leaf {
                    StageMark::StagedModify
                } else {
                    StageMark::Staged
                },
            };
            let new = Action::<E>::Mark {
                node: id,
                mark: if leaf {
                    StageMark::StagedAdd
                } else {
                    StageMark::Staged
                },
            };
            &&& cursor.phase == Phase::Rewriting(id) ==> crate::walk::next(
                plan,
                cursor,
                Event::<E>::Rewritten { dirtied: true },
            ) == (here(Phase::Noting(id)), Action::<E>::NoteModified { node: id })
            &&& cursor.phase == Phase::Rewriting(id) ==> crate::walk::next(
                plan,
                cursor,
                Event::<E>::Rewritten { dirtied: false },
            ) == (here(Phase::Marking(id)), changed)
            &&& cursor.phase == Phase::Noting(id) ==> crate::walk::next(
                plan,
                cursor,
                Event::<E>::Noted,
            ) == (here(Phase::Marking(id)), changed)
            &&& cursor.phase is Adding ==> crate::walk::next(plan, cursor, Event::<E>::Added(id))
                == (here(Phase::Marking(id)), new)
            &&& cursor.phase == Phase::Marking(id) ==> {
                let (after, action) = crate::walk::next(plan, cursor, Event::<E>::Marked);
                goes_on(plan, cursor, id, after, action)
            }
        }),
{
}

/// A walk starts at the root with the first component. With none it ends at
/// once: with the root where a directory is wanted, and with a refusal where a
/// leaf is.
pub proof fn law_walk_starts_at_the_root<E>(plan: Plan)
    ensures
        ({
            let (cursor, action) = crate::walk::begin::<E>(plan);
            &&& cursor.index == 0
            &&& cursor.parent == ROOT_NODE
            &&& if plan.hashes.len() > 0 {
                &&& cursor.phase is Finding
                &&& action == Action::<E>::Find { parent: ROOT_NODE, name_hash: plan.hashes[0] }
            } else {
                &&& cursor.phase is Finished
                &&& action == match plan.target {
                    Target::Leaf(_) => Action::<E>::Finish(
                        Err(WalkError::Refused(Refusal::RepositoryRoot)),
                    ),
                    Target::Directory => Action::<E>::Finish(Ok(ROOT_NODE)),
                }
            }
        }),
{
}

/// What a walk waits for is the answer to what it asked for, or a failure.
pub proof fn law_walk_awaits_its_answer<E>(
    plan: Plan,
    cursor: Cursor,
    event: Event<E>,
    answer: Event<E>,
)
    requires
        cursor.index < plan.hashes.len() <= usize::MAX,
        crate::walk::fits(cursor.phase, event),
    ensures
        ({
            let (after, action) = crate::walk::next(plan, cursor, event);
            crate::walk::fits(after.phase, answer) <==> match action {
                Action::Find { .. } => answer is Found || answer is NotFound || answer is Failed,
                Action::Load { .. } => answer is Loaded || answer is Failed,
                Action::Rewrite { .. } => answer is Rewritten || answer is Failed,
                Action::NoteModified { .. } => answer is Noted || answer is Failed,
                Action::Add { .. } => answer is Added || answer is Failed,
                Action::Mark { .. } => answer is Marked || answer is Failed,
                Action::Finish(_) => false,
            }
        }),
{
}

/// The text of a refusal holds the whole name of the component that it is
/// about, and says whether a file or a directory was wanted there.
pub proof fn law_refusal_names_the_component(component: usize, name: Seq<char>)
    ensures
        exists|at: int| #[trigger]
            crate::errors::refusal_text(Refusal::NotAFile { component }, name).subrange(
                at,
                at + name.len(),
            ) == name,
        exists|at: int| #[trigger]
            crate::errors::refusal_text(Refusal::NotADirectory { component }, name).subrange(
                at,
                at + name.len(),
            ) == name,
        crate::errors::refusal_text(Refusal::NotAFile { component }, name)
            != crate::errors::refusal_text(Refusal::NotADirectory { component }, name),
{
    let file = crate::errors::refusal_text(Refusal::NotAFile { component }, name);
    let directory = crate::errors::refusal_text(Refusal::NotADirectory { component }, name);
    let at = "cannot stage '"@.len() as int;
    assert(file.subrange(at, at + name.len()) =~= name);
    assert(directory.subrange(at, at + name.len()) =~= name);
    reveal_strlit("cannot stage '");
    reveal_strlit("' as a file: an existing node there is not a file");
    reveal_strlit("' as a directory: an existing node there is not a directory");
    assert(file.len() != directory.len());
}

} // verus!
