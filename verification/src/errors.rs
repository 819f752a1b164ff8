//! What a staging call answers when it does not stage.

use vstd::prelude::*;
use vstd::string::StringExecFns;
use crate::node::NodeID;
use crate::relocate::MoveRefusal;

verus! {

/// Why a path cannot be staged as asked.
#[derive(Debug, Clone, Copy, PartialEq, Eq, Structural)]
pub enum Refusal {
    /// The path has no component at all.
    RepositoryRoot,
    /// The component with this index belongs to a file, but a live node of
    /// another kind is there.
    NotAFile { component: usize },
    /// The component with this index belongs to a directory, but a live node
    /// of another kind is there.
    NotADirectory { component: usize },
}

/// The caller asked for something that cannot be done.
#[derive(Debug, PartialEq, Eq)]
pub struct InvalidArguments {
    pub reason: String,
}

/// Why a call on a tree failed.
#[derive(Debug, PartialEq, Eq)]
pub enum StateError {
    /// The arguments alone rule the call out.
    InvalidArguments(InvalidArguments),
    /// The tree is not what the call takes it to be.
    Internal(InvalidArguments),
    /// The path leads to nothing live.
    NodeNotFound,
}

/// The text that goes with `refusal` when the component is called `name`.
pub open spec fn refusal_text(refusal: Refusal, name: Seq<char>) -> Seq<char> {
    match refusal {
        Refusal::RepositoryRoot => "cannot stage the repository root as a leaf"@,
        Refusal::NotAFile { .. } => "cannot stage '"@ + name
            + "' as a file: an existing node there is not a file"@,
        Refusal::NotADirectory { .. } => "cannot stage '"@ + name
            + "' as a directory: an existing node there is not a directory"@,
    }
}

/// The name of the component that a refusal is about.
pub open spec fn refused_name(refusal: Refusal, names: Seq<Seq<char>>) -> Seq<char> {
    match refusal {
        Refusal::RepositoryRoot => Seq::empty(),
        Refusal::NotAFile { component } => names[component as int],
        Refusal::NotADirectory { component } => names[component as int],
    }
}

/// `error` reports `refusal` for a component called `name`: the root as an
/// invalid argument, a node that is in the way as an internal error.
pub open spec fn explains(error: StateError, refusal: Refusal, name: Seq<char>) -> bool {
    match error {
        StateError::InvalidArguments(error) => refusal is RepositoryRoot && error.reason@
            == refusal_text(refusal, name),
        StateError::Internal(error) => !(refusal is RepositoryRoot) && error.reason@
            == refusal_text(refusal, name),
        StateError::NodeNotFound => false,
    }
}

/// `result` tells the caller what came of staging a path with these names.
pub open spec fn reports(
    result: Result<NodeID, StateError>,
    staged: Result<NodeID, Refusal>,
    names: Seq<Seq<char>>,
) -> bool {
    match (result, staged) {
        (Ok(id), Ok(node)) => id == node,
        (Err(error), Err(refusal)) => explains(error, refusal, refused_name(refusal, names)),
        _ => false,
    }
}

/// The text for a delete of the root.
pub open spec fn delete_root_text() -> Seq<char> {
    "cannot delete the repository root"@
}

/// The text for a move from or to the root.
pub open spec fn move_root_text() -> Seq<char> {
    "cannot move the repository root"@
}

/// The text for a move where one path lies within the other.
pub open spec fn move_nested_text() -> Seq<char> {
    "cannot move a node into itself or over a directory that holds it"@
}

/// `result` tells the caller what came of moving to a path with these names.
pub open spec fn reports_move(
    result: Result<NodeID, StateError>,
    moved: Result<NodeID, MoveRefusal>,
    names: Seq<Seq<char>>,
) -> bool {
    match moved {
        Ok(id) => result == Ok::<NodeID, StateError>(id),
        Err(MoveRefusal::NotFound) => result == Err::<NodeID, StateError>(
            StateError::NodeNotFound,
        ),
        Err(MoveRefusal::RepositoryRoot) => result matches Err(
            StateError::InvalidArguments(error),
        ) && error.reason@ == move_root_text(),
        Err(MoveRefusal::Nested) => result matches Err(StateError::InvalidArguments(error))
            && error.reason@ == move_nested_text(),
        Err(MoveRefusal::Refused(refusal)) => reports(
            result,
            Err(refusal),
            names.drop_last(),
        ),
    }
}

impl StateError {
    /// The error for arguments that cannot be served, for this reason.
    pub fn invalid(reason: &str) -> (error: StateError)
        ensures
            error matches StateError::InvalidArguments(error) && error.reason@ == reason@,
    {
        StateError::InvalidArguments(InvalidArguments { reason: reason.to_owned() })
    }

    /// The error for a tree that is in the way, for this reason.
    pub fn internal(reason: String) -> (error: StateError)
        ensures
            error == StateError::Internal(InvalidArguments { reason }),
    {
        StateError::Internal(InvalidArguments { reason })
    }
}

impl Refusal {
    /// The error that reports this refusal for a component called `name`.
    pub fn explain(self, name: &str) -> (error: StateError)
        ensures
            explains(error, self, name@),
    {
        match self {
            Refusal::RepositoryRoot => StateError::invalid(
                "cannot stage the repository root as a leaf",
            ),
            Refusal::NotAFile { .. } => StateError::internal(
                "cannot stage '".to_owned().concat(name).concat(
                    "' as a file: an existing node there is not a file",
                ),
            ),
            Refusal::NotADirectory { .. } => StateError::internal(
                "cannot stage '".to_owned().concat(name).concat(
                    "' as a directory: an existing node there is not a directory",
                ),
            ),
        }
    }
}

} // verus!
