//! What a request leaves out, and what is asked of another task.
use vstd::prelude::*;

use crate::plan::RelayPoint;
use crate::schema::SchemaNode;
use crate::text::split_once;

verus! {

/// Filter options of a request.
#[derive(Debug)]
pub struct GetFilter {
    /// Number of levels that are walked; zero stands for no limit.
    pub max_depth: u32,
    /// Nodes that are left out, each as `name` or as `module:name`.
    pub exclude: Vec<String>,
}

/// A request for the state below a path.
#[derive(Debug)]
pub struct GetRequest {
    pub path: Option<String>,
    pub max_depth: u32,
    pub exclude: Vec<String>,
}

/// A request together with the task that is to answer it.
#[derive(Debug)]
pub struct Relay<T> {
    pub nb_tx: T,
    pub request: GetRequest,
}

/// An exclude entry names the node `name` of `module`.
pub open spec fn entry_names(entry: Seq<char>, module: Seq<char>, name: Seq<char>) -> bool {
    match crate::text::first_split(entry, ':') {
        Some((m, n)) => m == module && n == name,
        None => entry == name,
    }
}

/// The texts of a vector of strings.
pub open spec fn texts(strings: Seq<String>) -> Seq<Seq<char>> {
    strings.map_values(|s: String| s@)
}

/// The depth limit of a request that is relayed from a data node at `depth`.
pub open spec fn relayed_depth(max_depth: u32, depth: u32) -> u32 {
    if max_depth == 0 {
        0
    } else if max_depth <= depth {
        1
    } else {
        (max_depth - depth) as u32
    }
}

impl GetFilter {
    /// Some exclude entry names the node.
    pub open spec fn names(self, module: Seq<char>, name: Seq<char>) -> bool {
        exists|i: int|
            0 <= i < self.exclude@.len() && entry_names(
                (#[trigger] self.exclude@[i])@,
                module,
                name,
            )
    }

    /// Nothing below a data node at `depth` is walked.
    pub open spec fn stops_at(self, depth: u32) -> bool {
        self.max_depth > 0 && depth >= self.max_depth
    }

    /// The child is looked at: it can have state data below it and is not left
    /// out. Wrappers are never left out; their children are judged one by one.
    pub open spec fn visits(self, child: SchemaNode) -> bool {
        child.kind.is_interior() && (child.kind.is_wrapper() || !self.names(
            child.module@,
            child.name@,
        ))
    }

    /// Tells whether an exclude entry names the node.
    pub fn excludes(&self, module: &String, name: &String) -> (excluded: bool)
        ensures
            excluded == self.names(module@, name@),
    {
        let mut i: usize = 0;
        while i < self.exclude.len()
            invariant
                i <= self.exclude.len(),
                forall|j: int|
                    0 <= j < i ==> !entry_names((#[trigger] self.exclude@[j])@, module@, name@),
            decreases self.exclude.len() - i,
        {
            let entry = &self.exclude[i];
            let named = match split_once(entry.as_str(), ':') {
                Some((m, n)) => m == *module && n == *name,
                None => *entry == *name,
            };
            if named {
                assert(entry_names(self.exclude@[i as int]@, module@, name@));
                return true;
            }
            i = i + 1;
        }
        false
    }

    /// Tells whether the depth limit is reached.
    pub fn reached(&self, depth: u32) -> (reached: bool)
        ensures
            reached == self.stops_at(depth),
    {
        self.max_depth > 0 && depth >= self.max_depth
    }

    /// Tells whether a child node is looked at.
    pub fn keeps(&self, child: &SchemaNode) -> (kept: bool)
        ensures
            kept == self.visits(*child),
    {
        child.kind.nests() && (child.kind.wraps() || !self.excludes(&child.module, &child.name))
    }
}

impl<T> Relay<T> {
    /// `nb_tx` is asked about `path`, on behalf of a data node at `depth`.
    pub open spec fn asks(
        self,
        nb_tx: T,
        path: Seq<char>,
        filter: GetFilter,
        depth: u32,
    ) -> bool {
        &&& self.nb_tx == nb_tx
        &&& self.request.path is Some
        &&& self.request.path->0@ == path
        &&& self.request.max_depth == relayed_depth(filter.max_depth, depth)
        &&& texts(self.request.exclude@) == texts(filter.exclude@)
    }
}

impl<T> RelayPoint<T> {
    /// Prepares the request about the child, given the path of the data node
    /// that it belongs to.
    pub fn into_relay(self, dnode_path: String, filter: &GetFilter) -> (relay: Relay<T>)
        ensures
            relay.asks(
                self.task,
                dnode_path@ + "/"@ + self.module@ + ":"@ + self.name@,
                *filter,
                self.depth,
            ),
    {
        let path = dnode_path.concat("/").concat(self.module.as_str()).concat(":").concat(
            self.name.as_str(),
        );
        relay_request(self.task, path, filter, self.depth)
    }
}

/// Prepares the request that `nb_tx` answers on behalf of a data node at
/// `current_depth`.
pub fn relay_request<T>(nb_tx: T, path: String, filter: &GetFilter, current_depth: u32) -> (relay:
    Relay<T>)
    ensures
        relay.asks(nb_tx, path@, *filter, current_depth),
{
    // Clamped to one: a limit used up must not read as no limit.
    let max_depth: u32 = if filter.max_depth > 0 {
        let left: u32 = filter.max_depth.saturating_sub(current_depth);
        if left > 1 {
            left
        } else {
            1
        }
    } else {
        0
    };
    let exclude = filter.exclude.clone();
    assert(texts(exclude@) =~= texts(filter.exclude@));
    Relay { nb_tx, request: GetRequest { path: Some(path), max_depth, exclude } }
}

} // verus!
