//! What a path names.
//!
//! Paths are resolved by a YANG library, which is asked through [`YangContext`].
//! No module of this library calls it directly.
use vstd::prelude::*;

use crate::lookup::PathNode;
use crate::schema::SchemaNode;

verus! {

/// The data node that a path names.
#[derive(Debug)]
pub struct Target {
    /// The node and its ancestors, up to the root.
    pub inclusive_ancestors: Vec<PathNode>,
    /// The schema of the node.
    pub snode: SchemaNode,
}

/// The YANG modules that are loaded, as far as paths go.
///
/// Nothing is claimed of what comes back, so the contracts of this crate speak
/// of the answers themselves. Paths go to a library written in C: a null
/// character cannot be part of them.
pub trait YangContext {
    /// What the YANG library says about a path that it rejects.
    type Error;

    /// Creates the data node that the path names in an empty data tree, and
    /// looks up its schema. There may be no node to be had.
    fn resolve(&self, path: &str) -> (target: Result<Option<Target>, Self::Error>)
        requires
            !path@.contains('\0'),
    ;

    /// Looks up the schema that `terminal` names, as seen from that of
    /// `parent`.
    fn find_below(&self, parent: &Target, terminal: &str) -> (snode: Option<SchemaNode>)
        requires
            !terminal@.contains('\0'),
    ;
}

/// `target` can be what the path names.
pub open spec fn resolve_told<C: YangContext>(
    yang_ctx: &C,
    path: Seq<char>,
    target: Result<Option<Target>, C::Error>,
) -> bool {
    exists|text: &str|
        text@ == path && #[trigger] call_ensures(C::resolve, (yang_ctx, text), target)
}

/// `snode` can be the schema that `terminal` names below that of `parent`.
pub open spec fn below_told<C: YangContext>(
    yang_ctx: &C,
    parent: Target,
    terminal: Seq<char>,
    snode: Option<SchemaNode>,
) -> bool {
    exists|text: &str|
        text@ == terminal && #[trigger] call_ensures(
            C::find_below,
            (yang_ctx, &parent, text),
            snode,
        )
}

} // verus!
