//! The part of a YANG schema that a request walks.
use vstd::prelude::*;

verus! {

/// The kind of a schema node.
#[derive(Debug, Clone, Copy, PartialEq, Eq, Structural)]
pub enum SchemaNodeKind {
    Container,
    Case,
    Choice,
    Leaf,
    LeafList,
    List,
    AnyXml,
    AnyData,
    Rpc,
    Input,
    Output,
    Action,
    Notification,
}

/// A schema node with everything below it.
#[derive(Debug)]
pub struct SchemaNode {
    pub kind: SchemaNodeKind,
    /// Name of the module that defines the node.
    pub module: String,
    pub name: String,
    /// Path of the node among the schema's data nodes.
    pub data_path: String,
    /// Child nodes, in schema order.
    pub children: Vec<SchemaNode>,
}

impl SchemaNodeKind {
    /// Choices and cases group schema nodes; no data node stands for them.
    pub open spec fn is_wrapper(self) -> bool {
        self == SchemaNodeKind::Choice || self == SchemaNodeKind::Case
    }

    /// Kinds that can have state data below them.
    pub open spec fn is_interior(self) -> bool {
        self == SchemaNodeKind::List || self == SchemaNodeKind::Container || self.is_wrapper()
    }

    /// Tells whether the node only groups other schema nodes.
    pub fn wraps(self) -> (wraps: bool)
        ensures
            wraps == self.is_wrapper(),
    {
        match self {
            SchemaNodeKind::Choice | SchemaNodeKind::Case => true,
            _ => false,
        }
    }

    /// Tells whether the node can have state data below it.
    pub fn nests(self) -> (nests: bool)
        ensures
            nests == self.is_interior(),
    {
        match self {
            SchemaNodeKind::List | SchemaNodeKind::Container | SchemaNodeKind::Choice
            | SchemaNodeKind::Case => true,
            _ => false,
        }
    }
}

} // verus!
