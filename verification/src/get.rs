//! Get requests.
use vstd::prelude::*;

use crate::context;
use crate::context::{Target, YangContext};
use crate::filter::{relay_request, GetFilter, Relay};
use crate::lookup;
use crate::lookup::lookup_list_entry;
use crate::plan::{Subtree, SubtreeView};
use crate::provider::{ListEntryKind, Provider, ProviderBase};
use crate::schema::{SchemaNode, SchemaNodeKind};
use crate::walk;
use crate::walk::{iterate_children, iterate_node};

verus! {

/// Why a request failed, with what the YANG library said about it.
#[derive(Debug)]
pub enum Error<Y> {
    /// The path of the request names nothing.
    YangInvalidPath(Y),
    /// The reply of another task does not fit into the data tree.
    YangInvalidData(Y),
}

/// How a request is served.
#[derive(Debug)]
pub enum GetPlan<T> {
    /// Another task answers it.
    Relay(Relay<T>),
    /// `content` goes below the data node that `path` names; what it relays is
    /// subject to `filter`.
    Local { path: String, content: Subtree<T>, filter: GetFilter },
}

/// `plan` serves a request for `path`, whose schema is `snode`, if
/// `list_entry` stands for the data node.
pub open spec fn get_served<'a, P: Provider>(
    provider: &'a P,
    path: Seq<char>,
    snode: SchemaNode,
    list_entry: &P::ListEntry<'a>,
    filter: GetFilter,
    plan: GetPlan<P::Task>,
) -> bool {
    match plan {
        GetPlan::Relay(relay) => {
            &&& walk::task_told(list_entry, snode.module@, Some(relay.nb_tx))
            &&& relay.asks(relay.nb_tx, path, filter, 0)
        },
        GetPlan::Local { path: place, content, filter: kept } => {
            &&& walk::task_told(list_entry, snode.module@, None)
            &&& place@ == path
            &&& kept == filter
            &&& if snode.kind == SchemaNodeKind::List {
                walk::children_walked(
                    provider,
                    snode,
                    list_entry,
                    filter,
                    0,
                    SubtreeView::empty(),
                    content@,
                )
            } else {
                walk::node_walked(
                    provider,
                    snode,
                    list_entry,
                    true,
                    filter,
                    0,
                    SubtreeView::empty(),
                    content@,
                )
            }
        },
    }
}

/// The path that a request is about.
pub fn request_path<P: ProviderBase>(provider: &P, path: Option<String>) -> (text: String)
    ensures
        match path {
            Some(path) => text == path,
            None => call_ensures(P::top_level_node, (provider,), text),
        },
{
    match path {
        Some(path) => path,
        None => provider.top_level_node(),
    }
}

/// Serves a request for a data node that `list_entry` stands for.
pub fn get_below<'a, P: Provider>(
    provider: &'a P,
    path: String,
    snode: &SchemaNode,
    list_entry: &P::ListEntry<'a>,
    filter: GetFilter,
) -> (plan: GetPlan<P::Task>)
    ensures
        get_served(provider, path@, *snode, list_entry, filter, plan),
{
    // Check if another task implements the node.
    let module_name = snode.module.as_str();
    let task = list_entry.child_task(module_name);
    assert(walk::task_told(list_entry, snode.module@, task));
    match task {
        Some(task) => GetPlan::Relay(relay_request(task, path, &filter, 0)),
        None => {
            let mut content: Subtree<P::Task> = Subtree::new();
            // If a list entry was given, walk that list entry.
            if snode.kind == SchemaNodeKind::List {
                iterate_children(provider, &mut content, snode, list_entry, &filter, 0);
            } else {
                iterate_node(provider, &mut content, snode, list_entry, true, &filter, 0);
            }
            GetPlan::Local { path, content, filter }
        },
    }
}

/// `plan` serves a request for `path`, if `target` is what the path names: an
/// error exactly if the path was rejected, and no plan exactly if no data node
/// came of it.
pub open spec fn get_answered<'a, P: Provider, Y>(
    provider: &'a P,
    path: Seq<char>,
    target: Result<Option<Target>, Y>,
    filter: GetFilter,
    plan: Result<Option<GetPlan<P::Task>>, Error<Y>>,
) -> bool {
    match target {
        Ok(Some(target)) => match plan {
            Ok(Some(plan)) => exists|list_entry: P::ListEntry<'a>| #[trigger]
                lookup::lookup_told(provider, target.inclusive_ancestors@, list_entry)
                    && get_served(provider, path, target.snode, &list_entry, filter, plan),
            _ => false,
        },
        Ok(None) => plan == Ok::<_, Error<Y>>(None::<GetPlan<P::Task>>),
        Err(error) => plan == Err::<Option<GetPlan<P::Task>>, _>(Error::YangInvalidPath(error)),
    }
}

/// Serves a request, given what its path names.
pub fn get_resolved<'a, P: Provider, Y>(
    provider: &'a P,
    path: String,
    target: Result<Option<Target>, Y>,
    max_depth: u32,
    exclude: Vec<String>,
) -> (plan: Result<Option<GetPlan<P::Task>>, Error<Y>>)
    ensures
        get_answered(provider, path@, target, GetFilter { max_depth, exclude }, plan),
{
    match target {
        Ok(Some(target)) => {
            let list_entry = lookup_list_entry(provider, &target.inclusive_ancestors);
            let filter = GetFilter { max_depth, exclude };
            Ok(Some(get_below(provider, path, &target.snode, &list_entry, filter)))
        },
        Ok(None) => Ok(None),
        Err(error) => Err(Error::YangInvalidPath(error)),
    }
}

/// Serves a request for the data node that `path` names.
pub fn process_get<'a, P: Provider, C: YangContext>(
    provider: &'a P,
    yang_ctx: &C,
    path: String,
    max_depth: u32,
    exclude: Vec<String>,
) -> (plan: Result<Option<GetPlan<P::Task>>, Error<C::Error>>)
    requires
        !path@.contains('\0'),
    ensures
        exists|target: Result<Option<Target>, C::Error>| #[trigger]
            context::resolve_told(yang_ctx, path@, target) && get_answered(
                provider,
                path@,
                target,
                GetFilter { max_depth, exclude },
                plan,
            ),
{
    let text = path.as_str();
    let target = yang_ctx.resolve(text);
    assert(context::resolve_told(yang_ctx, path@, target));
    get_resolved(provider, path, target, max_depth, exclude)
}

/// What the outcome of one reply means for the request.
pub open spec fn settled<Y>(outcome: Result<Result<(), Y>, Error<Y>>) -> Result<(), Error<Y>> {
    match outcome {
        Ok(Ok(())) => Ok(()),
        Ok(Err(error)) => Err(Error::YangInvalidData(error)),
        Err(error) => Err(error),
    }
}

/// The replies to the relayed requests of one request, taken one by one.
#[derive(Debug)]
pub struct Replies {
    /// Number of relayed requests.
    pub total: usize,
    /// Number of replies that are part of the data already.
    pub merged: usize,
}

impl Replies {
    /// Taking `outcome` for the reply that is due comes to `result` and leads
    /// to `later`.
    pub open spec fn settles<Y>(
        self,
        outcome: Result<Result<(), Y>, Error<Y>>,
        result: Result<(), Error<Y>>,
        later: Replies,
    ) -> bool {
        &&& result == settled(outcome)
        &&& later.total == self.total
        &&& later.merged == self.merged + if result is Ok {
            1int
        } else {
            0
        }
    }

    /// No more replies are merged than were asked for.
    pub open spec fn wf(self) -> bool {
        self.merged <= self.total
    }

    /// Starts with no reply taken.
    pub fn new(total: usize) -> (replies: Self)
        ensures
            replies.wf(),
            replies.total == total,
            replies.merged == 0,
    {
        Replies { total, merged: 0 }
    }

    /// The relayed request whose reply is due, in the order of relaying.
    /// Without one the data is complete.
    pub fn due(&self) -> (due: Option<usize>)
        ensures
            due == if self.merged < self.total {
                Some(self.merged)
            } else {
                None
            },
    {
        if self.merged < self.total {
            Some(self.merged)
        } else {
            None
        }
    }

    /// Takes what became of the reply that is due: the failure that the other
    /// task reports, or else what merging its data came to. The first failure
    /// is that of the request.
    pub fn settle<Y>(&mut self, outcome: Result<Result<(), Y>, Error<Y>>) -> (result: Result<
        (),
        Error<Y>,
    >)
        requires
            old(self).merged < old(self).total,
        ensures
            final(self).wf(),
            old(self).settles(outcome, result, *final(self)),
    {
        match outcome {
            Ok(Ok(())) => {
                self.merged = self.merged + 1;
                Ok(())
            },
            Ok(Err(error)) => Err(Error::YangInvalidData(error)),
            Err(error) => Err(error),
        }
    }
}

} // verus!
