//! The node records of a revision tree: what a path leads to, where its
//! content is stored, and what has been staged on it.

use vstd::prelude::*;

verus! {

/// Identifies a node within one tree.
pub type NodeID = u64;

/// The node every path starts from.
pub const ROOT_NODE: NodeID = 0;

/// Value of [`Node::reserved`] on a leaf whose content address was vouched
/// for by the writer, so that a commit need not read the content again.
pub const TRUSTED_CONTENT_MARKER: u32 = 1;

/// Digest of stored content: 256 bits, in two halves.
#[derive(Debug, Clone, Copy, PartialEq, Eq, Structural)]
pub struct Hash {
    pub high: u128,
    pub low: u128,
}

/// Identity of a file across its revisions. Zero when none was given.
#[derive(Debug, Clone, Copy, PartialEq, Eq, Structural)]
pub struct Context {
    pub id: u128,
}

/// Where content is stored: its digest together with the file it belongs to.
#[derive(Debug, Clone, Copy, PartialEq, Eq, Structural)]
pub struct Address {
    pub hash: Hash,
    pub context: Context,
}

impl Context {
    pub open spec fn zero(self) -> bool {
        self.id == 0
    }

    pub fn is_zero(&self) -> (zero: bool)
        ensures
            zero == self.zero(),
            zero == (self.id == 0),
    {
        self.id == 0
    }
}

/// What a node is, and what has been staged on it.
#[derive(Debug, Clone, Copy, PartialEq, Eq, Structural)]
pub struct NodeFlags {
    /// The node holds content.
    pub file: bool,
    /// The node stands for another repository.
    pub link: bool,
    /// Something is staged on the node or below it.
    pub staged: bool,
    pub staged_add: bool,
    pub staged_modify: bool,
    pub staged_delete: bool,
    pub staged_move: bool,
}

/// A staging mark, as put on a node by `node_mark`.
#[derive(Debug, Clone, Copy, PartialEq, Eq, Structural)]
pub enum StageMark {
    Staged,
    StagedAdd,
    StagedModify,
    StagedDelete,
    StagedMove,
}

/// One record of the tree. The default record is an empty directory.
#[derive(Debug, Clone, Copy, PartialEq, Eq, Structural)]
pub struct Node {
    pub flags: NodeFlags,
    pub mode: u16,
    pub name_hash: u64,
    pub size: u64,
    pub address: Address,
    pub reserved: u32,
}

impl NodeFlags {
    /// The flags of a directory on which nothing is staged.
    pub open spec fn none() -> NodeFlags {
        NodeFlags {
            file: false,
            link: false,
            staged: false,
            staged_add: false,
            staged_modify: false,
            staged_delete: false,
            staged_move: false,
        }
    }

    /// The flags after `mark`: the mark is added to those already there.
    pub open spec fn marked(self, mark: StageMark) -> NodeFlags {
        NodeFlags {
            staged: true,
            staged_add: self.staged_add || mark is StagedAdd,
            staged_modify: self.staged_modify || mark is StagedModify,
            staged_delete: self.staged_delete || mark is StagedDelete,
            staged_move: self.staged_move || mark is StagedMove,
            ..self
        }
    }
}

impl Default for NodeFlags {
    fn default() -> (flags: NodeFlags)
        ensures
            flags == NodeFlags::none(),
    {
        NodeFlags {
            file: false,
            link: false,
            staged: false,
            staged_add: false,
            staged_modify: false,
            staged_delete: false,
            staged_move: false,
        }
    }
}

impl Node {
    pub open spec fn file(self) -> bool {
        self.flags.file && !self.flags.link
    }

    pub open spec fn directory(self) -> bool {
        !self.flags.file && !self.flags.link
    }

    /// Not hidden by a staged delete.
    pub open spec fn live(self) -> bool {
        !self.flags.staged_delete
    }

    /// The default record: an empty directory with no name and no content.
    pub open spec fn blank() -> Node {
        Node {
            flags: NodeFlags::none(),
            mode: 0,
            name_hash: 0,
            size: 0,
            address: Address {
                hash: Hash { high: 0, low: 0 },
                context: Context { id: 0 },
            },
            reserved: 0,
        }
    }

    pub open spec fn marked(self, mark: StageMark) -> Node {
        Node { flags: self.flags.marked(mark), ..self }
    }

    pub fn is_file(&self) -> (r: bool)
        ensures
            r == self.file(),
            r == (self.flags.file && !self.flags.link),
    {
        self.flags.file && !self.flags.link
    }

    pub fn is_directory(&self) -> (r: bool)
        ensures
            r == self.directory(),
            r == (!self.flags.file && !self.flags.link),
    {
        !self.flags.file && !self.flags.link
    }

    pub fn is_staged_delete(&self) -> (r: bool)
        ensures
            r == !self.live(),
            r == self.flags.staged_delete,
    {
        self.flags.staged_delete
    }
}

impl Default for Node {
    fn default() -> (node: Node)
        ensures
            node == Node::blank(),
    {
        Node {
            flags: NodeFlags::default(),
            mode: 0,
            name_hash: 0,
            size: 0,
            address: Address {
                hash: Hash { high: 0, low: 0 },
                context: Context { id: 0 },
            },
            reserved: 0,
        }
    }
}

/// Adds `mark` to the flags of `node`.
pub fn mark_flags(node: &mut Node, mark: StageMark)
    ensures
        *final(node) == old(node).marked(mark),
        final(node).flags == (NodeFlags {
            file: old(node).flags.file,
            link: old(node).flags.link,
            staged: true,
            staged_add: old(node).flags.staged_add || mark == StageMark::StagedAdd,
            staged_modify: old(node).flags.staged_modify || mark == StageMark::StagedModify,
            staged_delete: old(node).flags.staged_delete || mark == StageMark::StagedDelete,
            staged_move: old(node).flags.staged_move || mark == StageMark::StagedMove,
        }),
{
    node.flags.staged = true;
    match mark {
        StageMark::Staged => {},
        StageMark::StagedAdd => { node.flags.staged_add = true; },
        StageMark::StagedModify => { node.flags.staged_modify = true; },
        StageMark::StagedDelete => { node.flags.staged_delete = true; },
        StageMark::StagedMove => { node.flags.staged_move = true; },
    }
}

} // verus!
