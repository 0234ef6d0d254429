//! StreamGet requests, which deliver the entries of a list one by one.
use vstd::prelude::*;

use crate::context;
use crate::context::{Target, YangContext};
use crate::filter::GetFilter;
use crate::lookup;
use crate::lookup::lookup_list_entry;
use crate::plan::{Subtree, SubtreeView, YangObject};
use crate::provider;
use crate::provider::{list_ops, ListEntryKind, ListIterator, Provider, YangListOps};
use crate::schema::{SchemaNode, SchemaNodeKind};
use crate::text;
use crate::text::rsplit_once;
use crate::walk;
use crate::walk::iterate_children;

verus! {

/// A request to stream the entries of a list.
#[derive(Debug)]
pub struct StreamGetRequest {
    pub path: String,
    pub max_depth: u32,
    pub exclude: Vec<String>,
}

/// How a request is served.
pub enum StreamGet<'a, P: Provider + 'a> {
    /// There is nothing to stream.
    Refused,
    /// Another task serves it.
    Forward { nb_tx: P::Task, request: StreamGetRequest },
    /// The entries are streamed from here.
    Entries(EntryStream<'a, P>),
}

/// The list that is streamed, and what the client asked for.
pub struct StreamedList {
    /// The schema of the list.
    pub snode: SchemaNode,
    pub ops: YangListOps,
    /// The path of the list, without keys.
    pub path: String,
    pub filter: GetFilter,
}

/// The entries of a list that are still to be streamed.
pub struct EntryStream<'a, P: Provider + 'a> {
    list: StreamedList,
    iter: Option<P::ListIter<'a>>,
}

/// An entry that is to be given a data tree of its own.
pub struct PendingEntry<'a, P: Provider + 'a> {
    entry: P::ListEntry<'a>,
    object: YangObject,
    path: String,
    after: EntryStream<'a, P>,
}

impl<'a, P: Provider + 'a> EntryStream<'a, P> {
    pub closed spec fn list(self) -> StreamedList {
        self.list
    }

    /// The entries to come.
    pub closed spec fn iter(self) -> Option<P::ListIter<'a>> {
        self.iter
    }

    /// `entry` can be the next entry, and the stream goes on with `later`.
    pub open spec fn advanced(self, entry: P::ListEntry<'a>, later: EntryStream<'a, P>) -> bool {
        &&& later.list() == self.list()
        &&& self.iter() is Some
        &&& later.iter() is Some
        &&& call_ensures(
            <P::ListIter<'a> as ListIterator>::next,
            (self.iter()->0,),
            Some((entry, later.iter()->0)),
        )
    }

    /// No entry may be left.
    pub open spec fn ended(self) -> bool {
        self.iter() matches Some(iter) ==> call_ensures(
            <P::ListIter<'a> as ListIterator>::next,
            (iter,),
            None,
        )
    }

    /// The filter that the content of the entries is subject to.
    pub fn filter(&self) -> (filter: &GetFilter)
        ensures
            *filter == self.list().filter,
    {
        &self.list.filter
    }

    /// Takes the next entry, if there is one left.
    pub fn next_entry(self, provider: &'a P) -> (pending: Option<PendingEntry<'a, P>>)
        ensures
            match pending {
                Some(pending) => {
                    &&& self.advanced(pending.entry(), pending.after())
                    &&& call_ensures(
                        P::list_new,
                        (provider, &self.list().ops, &pending.entry()),
                        pending.object(),
                    )
                    &&& pending.entry_path() == self.list().path@ + pending.object().list_keys@
                },
                None => self.ended(),
            },
    {
        let EntryStream { list, iter } = self;
        let (entry, rest) = match iter {
            Some(iter) => match iter.next() {
                Some(next) => next,
                None => {
                    return None;
                },
            },
            None => {
                return None;
            },
        };
        let object = provider.list_new(&list.ops, &entry);
        let path = list.path.clone().concat(object.list_keys.as_str());
        Some(PendingEntry { entry, object, path, after: EntryStream { list, iter: Some(rest) } })
    }

    /// Takes whether the client received the last entry. The stream ends with
    /// the first entry that was not received.
    pub fn sent(self, delivered: bool) -> (rest: Option<EntryStream<'a, P>>)
        ensures
            rest == if delivered {
                Some(self)
            } else {
                None
            },
    {
        if delivered {
            Some(self)
        } else {
            None
        }
    }
}

impl<'a, P: Provider + 'a> PendingEntry<'a, P> {
    pub closed spec fn entry(self) -> P::ListEntry<'a> {
        self.entry
    }

    /// The stream of the entries after this one.
    pub closed spec fn after(self) -> EntryStream<'a, P> {
        self.after
    }

    pub closed spec fn object(self) -> YangObject {
        self.object
    }

    pub closed spec fn entry_path(self) -> Seq<char> {
        self.path@
    }

    /// The path of the entry, with its keys.
    pub fn path(&self) -> (path: &String)
        ensures
            path@ == self.entry_path(),
    {
        &self.path
    }

    /// Takes whether the path of the entry names a data node, and fills that
    /// node. An entry without one is passed over.
    pub fn placed(self, provider: &'a P, placed: bool) -> (rest: (
        EntryStream<'a, P>,
        Option<Subtree<P::Task>>,
    ))
        ensures
            rest.0 == self.after(),
            rest.1 is Some <==> placed,
            placed ==> walk::children_walked(
                provider,
                self.after().list().snode,
                &self.entry(),
                self.after().list().filter,
                0,
                SubtreeView { terms: self.object().terms@, nodes: Seq::empty() },
                rest.1->0@,
            ),
    {
        let PendingEntry { entry, object, after, .. } = self;
        let content = if placed {
            let mut content: Subtree<P::Task> = Subtree { terms: object.terms, nodes: Vec::new() };
            let list = &after.list;
            iterate_children(provider, &mut content, &list.snode, &entry, &list.filter, 0);
            Some(content)
        } else {
            None
        };
        (after, content)
    }
}

/// The data that the reply to a relayed request adds to an entry. A request
/// that failed, or was not answered, adds nothing.
pub fn reply_data<D, E, R>(reply: Result<Result<D, E>, R>) -> (data: Option<D>)
    ensures
        data == match reply {
            Ok(Ok(data)) => Some(data),
            _ => None,
        },
{
    match reply {
        Ok(Ok(data)) => Some(data),
        _ => None,
    }
}

/// Splits the path of a request into that of the parent node and the name of
/// the list.
pub fn split_stream_path(path: &String) -> (split: Option<(String, String)>)
    ensures
        text::pair_view(split) == text::last_split(path@, '/'),
{
    rsplit_once(path.as_str(), '/')
}

/// `stream` serves a request for the list `snode` of this provider, if
/// `list_entry` stands for the parent node.
pub open spec fn entries_served<'a, P: Provider>(
    provider: &'a P,
    request: StreamGetRequest,
    snode: SchemaNode,
    ops: YangListOps,
    list_entry: &P::ListEntry<'a>,
    stream: EntryStream<'a, P>,
) -> bool {
    &&& stream.list() == (StreamedList {
        snode,
        ops,
        path: request.path,
        filter: GetFilter { max_depth: request.max_depth, exclude: request.exclude },
    })
    &&& call_ensures(P::list_iter, (provider, &ops, list_entry), stream.iter())
}

/// `stream` serves a request for a list that this provider does not have, if
/// `list_entry` stands for the parent node.
pub open spec fn forward_served<'a, P: Provider>(
    request: StreamGetRequest,
    snode: SchemaNode,
    list_entry: &P::ListEntry<'a>,
    stream: StreamGet<'a, P>,
) -> bool {
    match stream {
        StreamGet::Forward { nb_tx, request: forwarded } => {
            &&& walk::task_told(list_entry, snode.module@, Some(nb_tx))
            &&& forwarded == request
        },
        StreamGet::Refused => walk::task_told(list_entry, snode.module@, None),
        StreamGet::Entries(_) => false,
    }
}

/// `stream` serves a request, if `target` is the parent node of the list with
/// the schema of the list.
pub open spec fn stream_answered<'a, P: Provider>(
    provider: &'a P,
    request: StreamGetRequest,
    target: Option<Target>,
    stream: StreamGet<'a, P>,
) -> bool {
    match target {
        None => stream is Refused,
        Some(Target { inclusive_ancestors, snode }) => {
            if snode.kind != SchemaNodeKind::List {
                stream is Refused
            } else {
                match provider::list_ops_at::<P>(snode.data_path@) {
                    Some(ops) if !ops.streamable => stream is Refused,
                    Some(ops) => stream is Entries && exists|list_entry: P::ListEntry<'a>|
                     #[trigger]
                        lookup::lookup_told(provider, inclusive_ancestors@, list_entry)
                            && entries_served(
                            provider,
                            request,
                            snode,
                            ops,
                            &list_entry,
                            stream->Entries_0,
                        ),
                    None => exists|list_entry: P::ListEntry<'a>| #[trigger]
                        lookup::lookup_told(provider, inclusive_ancestors@, list_entry)
                            && forward_served(request, snode, &list_entry, stream),
                }
            }
        },
    }
}

/// Serves a request, given the parent node of the list and the schema of the
/// list, if its path names them.
pub fn stream_resolved<'a, P: Provider>(
    provider: &'a P,
    request: StreamGetRequest,
    target: Option<Target>,
) -> (stream: StreamGet<'a, P>)
    ensures
        stream_answered(provider, request, target, stream),
{
    let Target { inclusive_ancestors, snode } = match target {
        Some(target) => target,
        None => {
            return StreamGet::Refused;
        },
    };

    // Must be a list node.
    if snode.kind != SchemaNodeKind::List {
        return StreamGet::Refused;
    }
    match list_ops::<P>(snode.data_path.as_str()) {
        Some(ops) => {
            // This provider has the list; it has to be streamable.
            if !ops.streamable {
                return StreamGet::Refused;
            }
            let list_entry = lookup_list_entry(provider, &inclusive_ancestors);
            let iter = provider.list_iter(&ops, &list_entry);
            let filter = GetFilter { max_depth: request.max_depth, exclude: request.exclude };
            let list = StreamedList { snode, ops, path: request.path, filter };
            StreamGet::Entries(EntryStream { list, iter })
        },
        None => {
            // Check if another task has the list.
            let list_entry = lookup_list_entry(provider, &inclusive_ancestors);
            let module_name = snode.module.as_str();
            let task = list_entry.child_task(module_name);
            assert(walk::task_told(&list_entry, snode.module@, task));
            match task {
                Some(nb_tx) => StreamGet::Forward { nb_tx, request },
                None => StreamGet::Refused,
            }
        },
    }
}

/// `stream` serves a request for the list `terminal`, if `parent` is what the
/// path before that name comes to.
pub open spec fn stream_below<'a, P: Provider, C: YangContext>(
    provider: &'a P,
    yang_ctx: &C,
    request: StreamGetRequest,
    parent: Result<Option<Target>, C::Error>,
    terminal: Seq<char>,
    stream: StreamGet<'a, P>,
) -> bool {
    match parent {
        Ok(Some(parent)) => exists|snode: Option<SchemaNode>| #[trigger]
            context::below_told(yang_ctx, parent, terminal, snode) && stream_answered(
                provider,
                request,
                match snode {
                    Some(snode) => Some(
                        Target { inclusive_ancestors: parent.inclusive_ancestors, snode },
                    ),
                    None => None,
                },
                stream,
            ),
        _ => stream is Refused,
    }
}

/// Serves a request for the list that its path names. The name of the list is
/// only looked at if the path before it comes to a data node.
pub fn process_stream_get<'a, P: Provider, C: YangContext>(
    provider: &'a P,
    yang_ctx: &C,
    request: StreamGetRequest,
) -> (stream: StreamGet<'a, P>)
    requires
        text::last_split(request.path@, '/') matches Some((parent, terminal)) ==> {
            &&& !parent.contains('\0')
            &&& terminal.contains('\0') ==> forall|target: Target|
                !#[trigger] context::resolve_told(yang_ctx, parent, Ok(Some(target)))
        },
    ensures
        match text::last_split(request.path@, '/') {
            None => stream is Refused,
            Some((parent, terminal)) => exists|target: Result<Option<Target>, C::Error>| #[trigger]
                context::resolve_told(yang_ctx, parent, target) && stream_below(
                    provider,
                    yang_ctx,
                    request,
                    target,
                    terminal,
                    stream,
                ),
        },
{
    // The list goes by its name alone: all of its entries are streamed.
    let (parent_path, terminal) = match split_stream_path(&request.path) {
        Some(parts) => parts,
        None => {
            return StreamGet::Refused;
        },
    };
    let parent_text = parent_path.as_str();
    let terminal_text = terminal.as_str();
    let resolved = yang_ctx.resolve(parent_text);
    assert(context::resolve_told(yang_ctx, parent_path@, resolved));
    let parent = match resolved {
        Ok(Some(parent)) => parent,
        _ => {
            return StreamGet::Refused;
        },
    };
    let found = yang_ctx.find_below(&parent, terminal_text);
    assert(context::below_told(yang_ctx, parent, terminal@, found));
    let target = match found {
        Some(snode) => Some(Target { inclusive_ancestors: parent.inclusive_ancestors, snode }),
        None => None,
    };
    stream_resolved(provider, request, target)
}

} // verus!
