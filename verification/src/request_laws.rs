//! What a request comes to, in terms of what it asks for and of the answers
//! that came back.
use vstd::prelude::*;

use crate::compare;
use crate::context::{Target, YangContext};
use crate::filter;
use crate::filter::{relay_request, GetFilter, Relay};
use crate::get;
use crate::get::{get_below, get_resolved, process_get, request_path, Error, GetPlan, Replies};
use crate::lookup;
use crate::lookup_laws;
use crate::plan;
use crate::plan::{NodeView, PlanNode, RelayPoint, Subtree, SubtreeView, YangObject};
use crate::provider;
use crate::provider::{ListEntryKind, ListIterator, Provider, ProviderBase};
use crate::schema::{SchemaNode, SchemaNodeKind};
use crate::stream;
use crate::stream::{
    process_stream_get, reply_data, split_stream_path, stream_resolved, EntryStream, PendingEntry,
    StreamGet, StreamGetRequest,
};
use crate::text;
use crate::text::{rsplit_once, split_once};
use crate::walk;
use crate::walk_laws;

verus! {

/// The strings have the same texts, one for one.
pub open spec fn same_texts(one: Seq<String>, other: Seq<String>) -> bool {
    &&& one.len() == other.len()
    &&& forall|i: int| 0 <= i < one.len() ==> (#[trigger] one[i])@ == other[i]@
}

proof fn lemma_same_texts(one: Seq<String>, other: Seq<String>)
    requires
        filter::texts(one) == filter::texts(other),
    ensures
        same_texts(one, other),
{
    assert(filter::texts(one).len() == one.len());
    assert(filter::texts(other).len() == other.len());
    assert forall|i: int| 0 <= i < one.len() implies (#[trigger] one[i])@ == other[i]@ by {
        assert(filter::texts(one)[i] == one[i]@);
        assert(filter::texts(other)[i] == other[i]@);
    }
}

/// The relayed request is about `path`, with the same exclude entries, and with
/// what is left of the limit at `depth`: no limit if there is none, and one
/// level at least.
pub open spec fn carries<T>(relay: Relay<T>, path: Seq<char>, filter: GetFilter, depth: u32) -> bool {
    &&& relay.request.path is Some
    &&& relay.request.path->0@ == path
    &&& same_texts(relay.request.exclude@, filter.exclude@)
    &&& filter.max_depth == 0 ==> relay.request.max_depth == 0
    &&& filter.max_depth > depth ==> relay.request.max_depth + depth == filter.max_depth
    &&& 0 < filter.max_depth <= depth ==> relay.request.max_depth == 1
}

/// A request is relayed to the task that is to answer it, with its path, its
/// exclude entries and what is left of its limit.
pub proof fn law_relay_carries_the_request<T>(
    nb_tx: T,
    path: String,
    filter: &GetFilter,
    depth: u32,
    relay: Relay<T>,
)
    requires
        call_ensures(relay_request::<T>, (nb_tx, path, filter, depth), relay),
    ensures
        relay.nb_tx == nb_tx,
        carries(relay, path@, *filter, depth),
{
    lemma_same_texts(relay.request.exclude@, filter.exclude@);
}

/// From a relay point, its task is asked about the child: by the path of the
/// data node, a slash, the module, a colon and the name of the child.
pub proof fn law_relay_point_names_the_child<T>(
    point: RelayPoint<T>,
    dnode_path: String,
    filter: &GetFilter,
    relay: Relay<T>,
)
    requires
        call_ensures(RelayPoint::<T>::into_relay, (point, dnode_path, filter), relay),
    ensures
        relay.nb_tx == point.task,
        carries(
            relay,
            dnode_path@ + seq!['/'] + point.module@ + seq![':'] + point.name@,
            *filter,
            point.depth,
        ),
{
    lemma_same_texts(relay.request.exclude@, filter.exclude@);
    reveal_strlit("/");
    reveal_strlit(":");
    assert("/"@ =~= seq!['/']);
    assert(":"@ =~= seq![':']);
}

/// `plan` is how a request for `path` is served if `list_entry` stands for the
/// data node. If the list entry has a task for the module of the node, that
/// task is asked the very same: path, limit and exclude entries. Otherwise the
/// node is filled from here, from the first level on, and the plan keeps path,
/// limit and exclude entries of the request.
pub open spec fn serves<'a, P: Provider>(
    provider: &'a P,
    path: Seq<char>,
    snode: SchemaNode,
    list_entry: &P::ListEntry<'a>,
    filter: GetFilter,
    plan: GetPlan<P::Task>,
) -> bool {
    match plan {
        GetPlan::Relay(relay) => {
            &&& walk_laws::says_task(list_entry, snode.module@, Some(relay.nb_tx))
            &&& relay.request.path is Some
            &&& relay.request.path->0@ == path
            &&& relay.request.max_depth == filter.max_depth
            &&& same_texts(relay.request.exclude@, filter.exclude@)
        },
        GetPlan::Local { path: place, content, filter: kept } => {
            &&& walk_laws::says_task(list_entry, snode.module@, None)
            &&& place@ == path
            &&& kept.max_depth == filter.max_depth
            &&& same_texts(kept.exclude@, filter.exclude@)
            &&& if snode.kind == SchemaNodeKind::List {
                walk_laws::filled(provider, snode, list_entry, filter, 0, None, content@)
            } else {
                walk::node_walked(
                    provider,
                    snode,
                    list_entry,
                    true,
                    filter,
                    0,
                    SubtreeView { terms: Seq::empty(), nodes: Seq::empty() },
                    content@,
                )
            }
        },
    }
}

proof fn lemma_serves<'a, P: Provider>(
    provider: &'a P,
    path: Seq<char>,
    snode: SchemaNode,
    list_entry: &P::ListEntry<'a>,
    filter: GetFilter,
    plan: GetPlan<P::Task>,
)
    requires
        get::get_served(provider, path, snode, list_entry, filter, plan),
    ensures
        serves(provider, path, snode, list_entry, filter, plan),
{
    match plan {
        GetPlan::Relay(relay) => {
            lemma_same_texts(relay.request.exclude@, filter.exclude@);
            assert(walk::task_told(list_entry, snode.module@, Some(relay.nb_tx)));
        },
        GetPlan::Local { content, .. } => {
            assert(walk::task_told(list_entry, snode.module@, None));
            if snode.kind == SchemaNodeKind::List {
                let below = walk::children_answers(
                    provider,
                    snode,
                    list_entry,
                    filter,
                    0,
                    SubtreeView::empty(),
                    content@,
                );
                assert(content@.terms =~= Seq::empty());
            }
        },
    }
}

/// A request for a data node that `list_entry` stands for is served as it
/// should be.
pub proof fn law_get_below_serves<'a, P: Provider>(
    provider: &'a P,
    path: String,
    snode: &SchemaNode,
    list_entry: &P::ListEntry<'a>,
    filter: GetFilter,
    plan: GetPlan<P::Task>,
)
    requires
        call_ensures(get_below::<P>, (provider, path, snode, list_entry, filter), plan),
    ensures
        serves(provider, path@, *snode, list_entry, filter, plan),
{
    lemma_serves(provider, path@, *snode, list_entry, filter, plan);
}

/// What a request comes to if `target` is what its path names. A rejected path
/// fails the request, with what the YANG library said. Without a data node
/// there is no plan. Otherwise the request is served for the list entry that
/// the keys on the way to the data node lead to.
pub open spec fn get_comes_to<'a, P: Provider, Y>(
    provider: &'a P,
    path: Seq<char>,
    target: Result<Option<Target>, Y>,
    filter: GetFilter,
    plan: Result<Option<GetPlan<P::Task>>, Error<Y>>,
) -> bool {
    match target {
        Err(said) => plan matches Err(Error::YangInvalidPath(error)) && error == said,
        Ok(None) => plan matches Ok(None),
        Ok(Some(target)) => plan matches Ok(Some(plan)) && exists|
            list_entry: P::ListEntry<'a>,
            chain: Seq<P::ListEntry<'a>>,
        |
            {
                &&& #[trigger] lookup_laws::reaches(
                    provider,
                    target.inclusive_ancestors@,
                    chain,
                    list_entry,
                )
                &&& call_ensures(<P::ListEntry<'a> as Default>::default, (), chain[0])
                &&& serves(provider, path, target.snode, &list_entry, filter, plan)
            },
    }
}

proof fn lemma_get_comes_to<'a, P: Provider, Y>(
    provider: &'a P,
    path: Seq<char>,
    target: Result<Option<Target>, Y>,
    filter: GetFilter,
    plan: Result<Option<GetPlan<P::Task>>, Error<Y>>,
)
    requires
        get::get_answered(provider, path, target, filter, plan),
    ensures
        get_comes_to(provider, path, target, filter, plan),
{
    if let Ok(Some(target)) = target {
        let served = plan->Ok_0->0;
        let entry = choose|entry: P::ListEntry<'a>| #[trigger]
            lookup::lookup_told(provider, target.inclusive_ancestors@, entry) && get::get_served(
                provider,
                path,
                target.snode,
                &entry,
                filter,
                served,
            );
        let chain = lookup_laws::law_lookup_goes_down_by_keys(
            provider,
            target.inclusive_ancestors@,
            entry,
        );
        lemma_serves(provider, path, target.snode, &entry, filter, served);
        assert(lookup_laws::reaches(provider, target.inclusive_ancestors@, chain, entry));
    }
}

/// A request comes to what its path, once resolved, makes it come to.
pub proof fn law_get_resolved<'a, P: Provider, Y>(
    provider: &'a P,
    path: String,
    target: Result<Option<Target>, Y>,
    max_depth: u32,
    exclude: Vec<String>,
    plan: Result<Option<GetPlan<P::Task>>, Error<Y>>,
)
    requires
        call_ensures(get_resolved::<P, Y>, (provider, path, target, max_depth, exclude), plan),
    ensures
        get_comes_to(provider, path@, target, GetFilter { max_depth, exclude }, plan),
{
    lemma_get_comes_to(provider, path@, target, GetFilter { max_depth, exclude }, plan);
}

/// A Get request asks the YANG library what its own path names, and comes to
/// what the answer makes it come to.
pub proof fn law_get_comes_to_what_its_path_names<'a, P: Provider, C: YangContext>(
    provider: &'a P,
    yang_ctx: &C,
    path: String,
    max_depth: u32,
    exclude: Vec<String>,
    plan: Result<Option<GetPlan<P::Task>>, Error<C::Error>>,
) -> (asked: (&'a str, Result<Option<Target>, C::Error>))
    requires
        call_ensures(process_get::<P, C>, (provider, yang_ctx, path, max_depth, exclude), plan),
    ensures
        asked.0@ == path@,
        call_ensures(C::resolve, (yang_ctx, asked.0), asked.1),
        get_comes_to(provider, path@, asked.1, GetFilter { max_depth, exclude }, plan),
{
    let filter = GetFilter { max_depth, exclude };
    let target = choose|target: Result<Option<Target>, C::Error>| #[trigger]
        crate::context::resolve_told(yang_ctx, path@, target) && get::get_answered(
            provider,
            path@,
            target,
            filter,
            plan,
        );
    let asked = choose|asked: &str|
        asked@ == path@ && #[trigger] call_ensures(C::resolve, (yang_ctx, asked), target);
    lemma_get_comes_to(provider, path@, target, filter, plan);
    (asked, target)
}

/// A Get request that is served from here fills the data node that its path
/// names, for the list entry that the keys on the way there lead to, which has
/// no task for the module of the node. An entry of a list is filled with what
/// is below it, any other node with what its kind stands for.
pub proof fn law_local_get_fills_the_named_node<'a, P: Provider, C: YangContext>(
    provider: &'a P,
    yang_ctx: &C,
    path: String,
    max_depth: u32,
    exclude: Vec<String>,
    place: String,
    content: Subtree<P::Task>,
    kept: GetFilter,
) -> (asked: (&'a str, Target, P::ListEntry<'a>))
    requires
        call_ensures(
            process_get::<P, C>,
            (provider, yang_ctx, path, max_depth, exclude),
            Ok(Some(GetPlan::Local { path: place, content, filter: kept })),
        ),
    ensures
        ({
            let (text, target, list_entry) = asked;
            let filter = GetFilter { max_depth, exclude };
            let empty = SubtreeView::<P::Task> { terms: Seq::empty(), nodes: Seq::empty() };
            &&& text@ == path@
            &&& place@ == path@
            &&& kept == filter
            &&& call_ensures(C::resolve, (yang_ctx, text), Ok(Some(target)))
            &&& lookup::lookup_told(provider, target.inclusive_ancestors@, list_entry)
            &&& exists|module: &str|
                module@ == target.snode.module@ && #[trigger] call_ensures(
                    <P::ListEntry<'a> as ListEntryKind>::child_task,
                    (&list_entry, module),
                    None,
                )
            &&& target.snode.kind == SchemaNodeKind::List ==> walk::children_walked(
                provider,
                target.snode,
                &list_entry,
                filter,
                0,
                empty,
                content@,
            )
            &&& target.snode.kind != SchemaNodeKind::List ==> walk::node_walked(
                provider,
                target.snode,
                &list_entry,
                true,
                filter,
                0,
                empty,
                content@,
            )
        }),
{
    let filter = GetFilter { max_depth, exclude };
    let plan = Ok::<_, Error<C::Error>>(
        Some(GetPlan::Local { path: place, content, filter: kept }),
    );
    let resolved = choose|resolved: Result<Option<Target>, C::Error>| #[trigger]
        crate::context::resolve_told(yang_ctx, path@, resolved) && get::get_answered(
            provider,
            path@,
            resolved,
            filter,
            plan,
        );
    let text = choose|text: &str|
        text@ == path@ && #[trigger] call_ensures(C::resolve, (yang_ctx, text), resolved);
    let target = resolved->Ok_0->0;
    let entry = choose|entry: P::ListEntry<'a>| #[trigger]
        lookup::lookup_told(provider, target.inclusive_ancestors@, entry) && get::get_served(
            provider,
            path@,
            target.snode,
            &entry,
            filter,
            plan->Ok_0->0,
        );
    (text, target, entry)
}

/// A Get request that another task answers as a whole is relayed with the very
/// limit and the very exclude entries of the request, and no limit stays no
/// limit.
pub proof fn law_whole_get_is_relayed_as_it_is<'a, P: Provider, C: YangContext>(
    provider: &'a P,
    yang_ctx: &C,
    path: String,
    max_depth: u32,
    exclude: Vec<String>,
    relay: Relay<P::Task>,
)
    requires
        call_ensures(
            process_get::<P, C>,
            (provider, yang_ctx, path, max_depth, exclude),
            Ok(Some(GetPlan::Relay(relay))),
        ),
    ensures
        relay.request.max_depth == max_depth,
        relay.request.path matches Some(asked) && asked@ == path@,
        relay.request.exclude@.len() == exclude@.len(),
        forall|i: int|
            0 <= i < exclude@.len() ==> (#[trigger] relay.request.exclude@[i])@ == exclude@[i]@,
{
    let plan = Ok::<_, Error<C::Error>>(Some(GetPlan::Relay(relay)));
    let asked = law_get_comes_to_what_its_path_names(
        provider,
        yang_ctx,
        path,
        max_depth,
        exclude,
        plan,
    );
}

/// Whatever the exclude entries of a Get request name, those of every request
/// that is made from a relay point of its plan name too, and nothing else. So
/// no task is asked for what the request leaves out. The limit of such a
/// request is what the depth of the relay point leaves of that of the request.
pub proof fn law_relayed_requests_leave_out_the_same<'a, P: Provider, C: YangContext>(
    provider: &'a P,
    yang_ctx: &C,
    path: String,
    max_depth: u32,
    exclude: Vec<String>,
    place: String,
    content: Subtree<P::Task>,
    kept: GetFilter,
    point: RelayPoint<P::Task>,
    dnode_path: String,
    relay: Relay<P::Task>,
    module: Seq<char>,
    name: Seq<char>,
)
    requires
        call_ensures(
            process_get::<P, C>,
            (provider, yang_ctx, path, max_depth, exclude),
            Ok(Some(GetPlan::Local { path: place, content, filter: kept })),
        ),
        call_ensures(RelayPoint::<P::Task>::into_relay, (point, dnode_path, &kept), relay),
    ensures
        place@ == path@,
        walk_laws::listed(
            GetFilter { max_depth: relay.request.max_depth, exclude: relay.request.exclude },
            module,
            name,
        ) <==> walk_laws::listed(GetFilter { max_depth, exclude }, module, name),
        max_depth == 0 <==> relay.request.max_depth == 0,
        max_depth > point.depth ==> relay.request.max_depth == max_depth - point.depth,
{
    let plan = Ok::<_, Error<C::Error>>(
        Some(GetPlan::Local { path: place, content, filter: kept }),
    );
    let asked = law_get_comes_to_what_its_path_names(
        provider,
        yang_ctx,
        path,
        max_depth,
        exclude,
        plan,
    );
    law_relay_point_names_the_child(point, dnode_path, &kept, relay);
    let relayed = GetFilter {
        max_depth: relay.request.max_depth,
        exclude: relay.request.exclude,
    };
    let request = GetFilter { max_depth, exclude };
    if walk_laws::listed(relayed, module, name) {
        let at = choose|i: int|
            0 <= i < relayed.exclude@.len() && walk_laws::says(
                (#[trigger] relayed.exclude@[i])@,
                module,
                name,
            );
        assert(kept.exclude@[at]@ == relayed.exclude@[at]@);
        assert(walk_laws::says(request.exclude@[at]@, module, name));
    }
    if walk_laws::listed(request, module, name) {
        let at = choose|i: int|
            0 <= i < request.exclude@.len() && walk_laws::says(
                (#[trigger] request.exclude@[i])@,
                module,
                name,
            );
        assert(kept.exclude@[at]@ == request.exclude@[at]@);
        assert(relayed.exclude@[at]@ == kept.exclude@[at]@);
        assert(walk_laws::says(relayed.exclude@[at]@, module, name));
    }
}

/// A request is about its own path, or else about the top level node.
pub proof fn law_request_path<P: ProviderBase>(provider: &P, path: Option<String>, text: String)
    requires
        call_ensures(request_path::<P>, (provider, path), text),
    ensures
        path matches Some(path) ==> text@ == path@,
        path is None ==> call_ensures(P::top_level_node, (provider,), text),
{
}

/// One reply counts as merged exactly if the task answered and its data was
/// merged. What the task reports, or what merging came to, is otherwise the
/// failure of the request.
pub proof fn law_reply_is_settled<Y>(
    outcome: Result<Result<(), Y>, Error<Y>>,
    result: Result<(), Error<Y>>,
)
    ensures
        forall|replies: &mut Replies| #[trigger]
            call_ensures(Replies::settle::<Y>, (replies, outcome), result) ==> {
                &&& match outcome {
                    Ok(Ok(_)) => result is Ok,
                    Ok(Err(said)) => result matches Err(Error::YangInvalidData(error)) && error
                        == said,
                    Err(said) => result matches Err(error) && error == said,
                }
                &&& (*final(replies)).total == replies.total
                &&& (*final(replies)).merged == replies.merged + if outcome matches Ok(Ok(_)) {
                    1int
                } else {
                    0
                }
            },
{
}

/// A reply is due as long as fewer are merged than were asked for, the first
/// one first.
pub proof fn law_reply_is_due(total: usize, fresh: Replies, replies: &Replies, due: Option<usize>)
    requires
        call_ensures(Replies::new, (total,), fresh),
        call_ensures(Replies::due, (replies,), due),
    ensures
        fresh.total == total && fresh.merged == 0,
        due is Some <==> replies.merged < replies.total,
        due is Some ==> due->0 == replies.merged,
{
}

/// What a StreamGet request comes to, given the data nodes on the way to the
/// parent of the list, and the schema of the list. Only lists are streamed. One
/// that the provider serves has to be streamable: its entries are those that
/// its iterator hands out below the list entry which the keys in the path lead
/// to, with path, limit and exclude entries of the request. Any other list is
/// left to the task that this list entry has for its module, with the request
/// as it is, if there is such a task.
pub open spec fn stream_comes_to<'a, P: Provider>(
    provider: &'a P,
    request: StreamGetRequest,
    target: Option<Target>,
    stream: StreamGet<'a, P>,
) -> bool {
    let table = provider::list_table(P::YANG_OPS.list);
    match target {
        Some(target) if target.snode.kind == SchemaNodeKind::List => {
            let snode = target.snode;
            let ops = table[snode.data_path@];
            if table.contains_key(snode.data_path@) && !ops.streamable {
                stream is Refused
            } else {
                exists|list_entry: P::ListEntry<'a>, chain: Seq<P::ListEntry<'a>>|
                    {
                        &&& #[trigger] lookup_laws::reaches(
                            provider,
                            target.inclusive_ancestors@,
                            chain,
                            list_entry,
                        )
                        &&& call_ensures(<P::ListEntry<'a> as Default>::default, (), chain[0])
                        &&& lookup::lookup_told(
                            provider,
                            target.inclusive_ancestors@,
                            list_entry,
                        )
                        &&& if table.contains_key(snode.data_path@) {
                            match stream {
                                StreamGet::Entries(stream) => {
                                    &&& call_ensures(
                                        P::list_iter,
                                        (provider, &ops, &list_entry),
                                        stream.iter(),
                                    )
                                    &&& stream.list().snode == snode
                                    &&& stream.list().ops == ops
                                    &&& stream.list().path@ == request.path@
                                    &&& stream.list().filter.max_depth == request.max_depth
                                    &&& same_texts(
                                        stream.list().filter.exclude@,
                                        request.exclude@,
                                    )
                                },
                                _ => false,
                            }
                        } else {
                            match stream {
                                StreamGet::Forward { nb_tx, request: forwarded } => {
                                    &&& walk_laws::says_task(
                                        &list_entry,
                                        snode.module@,
                                        Some(nb_tx),
                                    )
                                    &&& forwarded.path@ == request.path@
                                    &&& forwarded.max_depth == request.max_depth
                                    &&& same_texts(forwarded.exclude@, request.exclude@)
                                },
                                StreamGet::Refused => walk_laws::says_task(
                                    &list_entry,
                                    snode.module@,
                                    None,
                                ),
                                StreamGet::Entries(_) => false,
                            }
                        }
                    }
            }
        },
        _ => stream is Refused,
    }
}

proof fn lemma_stream_comes_to<'a, P: Provider>(
    provider: &'a P,
    request: StreamGetRequest,
    target: Option<Target>,
    stream: StreamGet<'a, P>,
)
    requires
        stream::stream_answered(provider, request, target, stream),
    ensures
        stream_comes_to(provider, request, target, stream),
{
    let table = provider::list_table(P::YANG_OPS.list);
    if let Some(Target { inclusive_ancestors, snode }) = target {
        if snode.kind == SchemaNodeKind::List {
            let ops = table[snode.data_path@];
            if table.contains_key(snode.data_path@) {
                if ops.streamable {
                    let entry = choose|entry: P::ListEntry<'a>| #[trigger]
                        lookup::lookup_told(provider, inclusive_ancestors@, entry)
                            && stream::entries_served(
                            provider,
                            request,
                            snode,
                            ops,
                            &entry,
                            stream->Entries_0,
                        );
                    let chain = lookup_laws::law_lookup_goes_down_by_keys(
                        provider,
                        inclusive_ancestors@,
                        entry,
                    );
                    assert(lookup_laws::reaches(provider, inclusive_ancestors@, chain, entry));
                }
            } else {
                let entry = choose|entry: P::ListEntry<'a>| #[trigger]
                    lookup::lookup_told(provider, inclusive_ancestors@, entry)
                        && stream::forward_served(request, snode, &entry, stream);
                let chain = lookup_laws::law_lookup_goes_down_by_keys(
                    provider,
                    inclusive_ancestors@,
                    entry,
                );
                assert(lookup_laws::reaches(provider, inclusive_ancestors@, chain, entry));
                match stream {
                    StreamGet::Forward { nb_tx, .. } => {
                        assert(walk::task_told(&entry, snode.module@, Some(nb_tx)));
                    },
                    _ => {
                        assert(walk::task_told(&entry, snode.module@, None));
                    },
                }
            }
        }
    }
}

/// A StreamGet request comes to what its path, once resolved, makes it come to.
pub proof fn law_stream_resolved<'a, P: Provider>(
    provider: &'a P,
    request: StreamGetRequest,
    target: Option<Target>,
    stream: StreamGet<'a, P>,
)
    requires
        call_ensures(stream_resolved::<P>, (provider, request, target), stream),
    ensures
        stream_comes_to(provider, request, target, stream),
{
    lemma_stream_comes_to(provider, request, target, stream);
}

/// A StreamGet request asks the YANG library what stands before the last slash
/// of its path, and what stands after it below that node. It comes to what the
/// answers make it come to, and is refused without a slash or a parent node.
pub proof fn law_stream_comes_to_what_its_path_names<'a, P: Provider, C: YangContext>(
    provider: &'a P,
    yang_ctx: &C,
    request: StreamGetRequest,
    stream: StreamGet<'a, P>,
) -> (asked: (&'a str, Seq<char>, Result<Option<Target>, C::Error>))
    requires
        call_ensures(process_stream_get::<P, C>, (provider, yang_ctx, request), stream),
    ensures
        !request.path@.contains('/') ==> stream is Refused,
        request.path@.contains('/') ==> {
            let (parent, terminal, resolved) = asked;
            &&& request.path@ == parent@ + seq!['/'] + terminal
            &&& !terminal.contains('/')
            &&& call_ensures(C::resolve, (yang_ctx, parent), resolved)
            &&& match resolved {
                Ok(Some(above)) => exists|text: &str, found: Option<SchemaNode>|
                    {
                        &&& text@ == terminal
                        &&& #[trigger] call_ensures(C::find_below, (yang_ctx, &above, text), found)
                        &&& match found {
                            Some(snode) => stream_comes_to(
                                provider,
                                request,
                                Some(
                                    Target {
                                        inclusive_ancestors: above.inclusive_ancestors,
                                        snode,
                                    },
                                ),
                                stream,
                            ),
                            None => stream is Refused,
                        }
                    },
                _ => stream is Refused,
            }
        },
{
    crate::laws::law_stream_path_parts(request.path@);
    if let Some((parent, terminal)) = text::last_split(request.path@, '/') {
        assert(request.path@[parent.len() as int] == '/');
        let resolved = choose|resolved: Result<Option<Target>, C::Error>| #[trigger]
            crate::context::resolve_told(yang_ctx, parent, resolved) && stream::stream_below(
                provider,
                yang_ctx,
                request,
                resolved,
                terminal,
                stream,
            );
        let parent_text = choose|text: &str|
            text@ == parent && #[trigger] call_ensures(C::resolve, (yang_ctx, text), resolved);
        if let Ok(Some(above)) = resolved {
            let found = choose|found: Option<SchemaNode>| #[trigger]
                crate::context::below_told(yang_ctx, above, terminal, found)
                    && stream::stream_answered(
                    provider,
                    request,
                    match found {
                        Some(snode) => Some(
                            Target { inclusive_ancestors: above.inclusive_ancestors, snode },
                        ),
                        None => None,
                    },
                    stream,
                );
            let text = choose|text: &str|
                text@ == terminal && #[trigger] call_ensures(
                    C::find_below,
                    (yang_ctx, &above, text),
                    found,
                );
            if let Some(snode) = found {
                lemma_stream_comes_to(
                    provider,
                    request,
                    Some(Target { inclusive_ancestors: above.inclusive_ancestors, snode }),
                    stream,
                );
            }
            assert(call_ensures(C::find_below, (yang_ctx, &above, text), found));
        }
        (parent_text, terminal, resolved)
    } else {
        arbitrary()
    }
}

/// The entries that a StreamGet request streams are handed out by an iterator
/// that the provider has for the list below the list entry which the keys in
/// the path before the last slash lead to.
pub proof fn law_stream_iterates_below_the_parent<'a, P: Provider, C: YangContext>(
    provider: &'a P,
    yang_ctx: &C,
    request: StreamGetRequest,
    stream: EntryStream<'a, P>,
) -> (asked: (&'a str, Target, P::ListEntry<'a>))
    requires
        call_ensures(
            process_stream_get::<P, C>,
            (provider, yang_ctx, request),
            StreamGet::Entries(stream),
        ),
    ensures
        ({
            let (parent, above, list_entry) = asked;
            let table = provider::list_table(P::YANG_OPS.list);
            &&& parent@.len() < request.path@.len()
            &&& request.path@.take(parent@.len() as int) == parent@
            &&& request.path@[parent@.len() as int] == '/'
            &&& !request.path@.skip(parent@.len() + 1int).contains('/')
            &&& call_ensures(C::resolve, (yang_ctx, parent), Ok(Some(above)))
            &&& lookup::lookup_told(provider, above.inclusive_ancestors@, list_entry)
            &&& table.contains_key(stream.list().snode.data_path@)
            &&& stream.list().ops == table[stream.list().snode.data_path@]
            &&& stream.list().ops.streamable
            &&& stream.list().snode.kind == SchemaNodeKind::List
            &&& call_ensures(
                P::list_iter,
                (provider, &stream.list().ops, &list_entry),
                stream.iter(),
            )
        }),
{
    let (parent, terminal, resolved) = law_stream_comes_to_what_its_path_names(
        provider,
        yang_ctx,
        request,
        StreamGet::Entries(stream),
    );
    let above = resolved->Ok_0->0;
    let (text, found) = choose|text: &str, found: Option<SchemaNode>|
        {
            &&& text@ == terminal
            &&& #[trigger] call_ensures(C::find_below, (yang_ctx, &above, text), found)
            &&& match found {
                Some(snode) => stream_comes_to(
                    provider,
                    request,
                    Some(Target { inclusive_ancestors: above.inclusive_ancestors, snode }),
                    StreamGet::Entries(stream),
                ),
                None => false,
            }
        };
    let snode = found->0;
    let ops = provider::list_table(P::YANG_OPS.list)[snode.data_path@];
    let (list_entry, chain) = choose|list_entry: P::ListEntry<'a>, chain: Seq<P::ListEntry<'a>>|
        {
            &&& #[trigger] lookup_laws::reaches(
                provider,
                above.inclusive_ancestors@,
                chain,
                list_entry,
            )
            &&& lookup::lookup_told(provider, above.inclusive_ancestors@, list_entry)
            &&& call_ensures(P::list_iter, (provider, &ops, &list_entry), stream.iter())
            &&& stream.list().snode == snode
            &&& stream.list().ops == ops
        };
    assert(request.path@.take(parent@.len() as int) =~= parent@);
    assert(request.path@.skip(parent@.len() + 1int) =~= terminal);
    (parent, above, list_entry)
}

/// An entry that a stream hands out is the next one of the iterator, and the
/// stream goes on with the entries after it. Its path is that of the list with
/// the keys of the report on the entry. Once it is placed, it has all the
/// leaves of that report and is filled with what is below the entry, from the
/// first level on; if it is not placed, it is passed over.
pub proof fn law_streamed_entry_is_as_reported<'a, P: Provider>(
    provider: &'a P,
    stream: EntryStream<'a, P>,
    pending: PendingEntry<'a, P>,
    path: &String,
    placed: bool,
    rest: EntryStream<'a, P>,
    content: Option<Subtree<P::Task>>,
) -> (told: (P::ListEntry<'a>, YangObject))
    requires
        call_ensures(EntryStream::<'a, P>::next_entry, (stream, provider), Some(pending)),
        call_ensures(PendingEntry::<'a, P>::path, (&pending,), path),
        call_ensures(
            PendingEntry::<'a, P>::placed,
            (pending, provider, placed),
            (rest, content),
        ),
    ensures
        stream.iter() is Some,
        rest.iter() is Some,
        rest.list() == stream.list(),
        call_ensures(
            <P::ListIter<'a> as ListIterator>::next,
            (stream.iter()->0,),
            Some((told.0, rest.iter()->0)),
        ),
        call_ensures(P::list_new, (provider, &stream.list().ops, &told.0), told.1),
        path@ == stream.list().path@ + told.1.list_keys@,
        content is Some <==> placed,
        placed ==> walk_laws::filled(
            provider,
            stream.list().snode,
            &told.0,
            stream.list().filter,
            0,
            Some(told.1),
            content->0@,
        ),
{
    if placed {
        let below = walk::children_answers(
            provider,
            stream.list().snode,
            &pending.entry(),
            stream.list().filter,
            0,
            SubtreeView { terms: pending.object().terms@, nodes: Seq::empty() },
            content->0@,
        );
    }
    (pending.entry(), pending.object())
}

/// A stream has nothing more to hand out only if its iterator has nothing
/// more, or if there is none.
pub proof fn law_stream_ends_with_its_iterator<'a, P: Provider>(
    provider: &'a P,
    stream: EntryStream<'a, P>,
)
    requires
        call_ensures(
            EntryStream::<'a, P>::next_entry,
            (stream, provider),
            None::<PendingEntry<'a, P>>,
        ),
    ensures
        stream.iter() matches Some(iter) ==> call_ensures(
            <P::ListIter<'a> as ListIterator>::next,
            (iter,),
            None,
        ),
{
}

/// A stream goes on exactly if the client received the last entry, and its
/// entries are subject to the filter that it was made with.
pub proof fn law_stream_goes_on_while_received<'a, P: Provider>(
    stream: EntryStream<'a, P>,
    delivered: bool,
    rest: Option<EntryStream<'a, P>>,
    kept: &GetFilter,
)
    requires
        call_ensures(EntryStream::<'a, P>::sent, (stream, delivered), rest),
        call_ensures(EntryStream::<'a, P>::filter, (&stream,), kept),
    ensures
        rest is Some <==> delivered,
        rest is Some ==> rest->0 == stream,
        *kept == stream.list().filter,
{
}

/// Only the data of a task that answered is added to a streamed entry.
pub proof fn law_reply_data<D, E, R>(reply: Result<Result<D, E>, R>, data: Option<D>)
    requires
        call_ensures(reply_data::<D, E, R>, (reply,), data),
    ensures
        data is Some <==> reply is Ok && reply->Ok_0 is Ok,
        data is Some ==> data->0 == reply->Ok_0->Ok_0,
{
}

/// As long as a provider answers alike, a stream hands out exactly the entries
/// that a walk of the same list, below the list entry which the path of the
/// request leads to, puts into the data tree: as many, in the same order, and
/// each of them with the keys and the leaves of the report on that entry.
pub proof fn law_stream_agrees_with_the_walk<'a, P: Provider>(
    provider: &'a P,
    request: StreamGetRequest,
    target: Target,
    stream: EntryStream<'a, P>,
    streamed: Seq<P::ListEntry<'a>>,
    states: Seq<P::ListIter<'a>>,
    list_entry: P::ListEntry<'a>,
    filter: GetFilter,
    depth: u32,
    before: SubtreeView<P::Task>,
    after: SubtreeView<P::Task>,
)
    requires
        compare::steady(provider),
        call_ensures(
            stream_resolved::<P>,
            (provider, request, Some(target)),
            StreamGet::Entries(stream),
        ),
        match stream.iter() {
            Some(iter) => lookup_laws::hands_out(iter, streamed, states) && call_ensures(
                <P::ListIter<'a> as ListIterator>::next,
                (states.last(),),
                None,
            ),
            None => streamed.len() == 0,
        },
        lookup::lookup_told(provider, target.inclusive_ancestors@, list_entry),
        walk::list_walked(provider, target.snode, &list_entry, filter, depth, before, after),
    ensures
        after.nodes.len() == before.nodes.len() + streamed.len(),
        forall|i: int, object: YangObject|
            0 <= i < streamed.len() && #[trigger] call_ensures(
                P::list_new,
                (provider, &stream.list().ops, &streamed[i]),
                object,
            ) ==> match after.nodes[before.nodes.len() + i] {
                NodeView::List { module, name, keys, content } => {
                    &&& module == target.snode.module@
                    &&& name == target.snode.name@
                    &&& keys == object.list_keys@
                    &&& content.terms == object.terms@
                },
                _ => false,
            },
{
    law_stream_resolved(provider, request, Some(target), StreamGet::Entries(stream));
    let table = provider::list_table(P::YANG_OPS.list);
    let snode = target.snode;
    let ops = table[snode.data_path@];
    let (parent, chain) = choose|parent: P::ListEntry<'a>, chain: Seq<P::ListEntry<'a>>|
        {
            &&& #[trigger] lookup_laws::reaches(
                provider,
                target.inclusive_ancestors@,
                chain,
                parent,
            )
            &&& call_ensures(<P::ListEntry<'a> as Default>::default, (), chain[0])
            &&& lookup::lookup_told(provider, target.inclusive_ancestors@, parent)
            &&& call_ensures(P::list_iter, (provider, &ops, &parent), stream.iter())
            &&& stream.list().ops == ops
        };
    compare::law_lookup_is_steady(provider, target.inclusive_ancestors@, parent, list_entry);
    let (iter, walk_states, entries, objects) = walk_laws::law_list_adds_its_entries(
        provider,
        snode,
        &list_entry,
        filter,
        depth,
        before,
        after,
    );
    assert(call_ensures(P::list_iter, (provider, &ops, &list_entry), stream.iter()));
    assert(iter == stream.iter());
    if let Some(iter) = iter {
        lookup_laws::lemma_all_handed_out_alike(iter, entries, walk_states, streamed, states);
    } else {
        assert(entries =~= streamed);
    }
    assert forall|i: int, object: YangObject|
        0 <= i < streamed.len() && #[trigger] call_ensures(
            P::list_new,
            (provider, &stream.list().ops, &streamed[i]),
            object,
        ) implies match after.nodes[before.nodes.len() + i] {
        NodeView::List { module, name, keys, content } => {
            &&& module == target.snode.module@
            &&& name == target.snode.name@
            &&& keys == object.list_keys@
            &&& content.terms == object.terms@
        },
        _ => false,
    } by {
        assert(call_ensures(P::list_new, (provider, &ops, &entries[i]), objects[i]));
        assert(compare::same_report(object, objects[i]));
    }
}

/// A text is split at its first separator: the parts make it up again, and the
/// first part holds no separator.
pub proof fn law_split_at_the_first(
    text: &str,
    sep: char,
    split: Option<(String, String)>,
)
    requires
        call_ensures(split_once, (text, sep), split),
    ensures
        split is Some <==> text@.contains(sep),
        split matches Some((head, tail)) ==> text@ == head@ + seq![sep] + tail@
            && !head@.contains(sep),
{
    text@.index_of_first_ensures(sep);
    if let Some((head, tail)) = split {
        let at = text@.index_of_first(sep)->0;
        assert(text@ =~= head@ + seq![sep] + tail@);
        assert forall|i: int| 0 <= i < head@.len() implies head@[i] != sep by {
            assert(head@[i] == text@[i]);
        }
    }
}

/// A text is split at its last separator: the parts make it up again, and the
/// last part holds no separator.
pub proof fn law_split_at_the_last(
    text: &str,
    sep: char,
    split: Option<(String, String)>,
)
    requires
        call_ensures(rsplit_once, (text, sep), split),
    ensures
        split is Some <==> text@.contains(sep),
        split matches Some((head, tail)) ==> text@ == head@ + seq![sep] + tail@
            && !tail@.contains(sep),
{
    text@.index_of_last_ensures(sep);
    if let Some((head, tail)) = split {
        let at = text@.index_of_last(sep)->0;
        assert(text@ =~= head@ + seq![sep] + tail@);
        assert forall|i: int| 0 <= i < tail@.len() implies tail@[i] != sep by {
            assert(tail@[i] == text@[at + 1 + i]);
        }
    }
}

/// The path of a StreamGet request is split at its last slash.
pub proof fn law_stream_path_is_split(path: &String, split: Option<(String, String)>)
    requires
        call_ensures(split_stream_path, (path,), split),
    ensures
        split is Some <==> path@.contains('/'),
        split matches Some((parent, terminal)) ==> path@ == parent@ + seq!['/'] + terminal@
            && !terminal@.contains('/'),
{
    crate::laws::law_stream_path_parts(path@);
    if let Some((parent, terminal)) = split {
        assert((parent@ + seq!['/'] + terminal@)[parent@.len() as int] == '/');
    }
}

/// Nothing of a step is lost in its view.
pub proof fn law_step_is_seen_whole<T>(node: PlanNode<T>)
    ensures
        match node {
            PlanNode::List { module, name, keys, content } => node.view() matches NodeView::List {
                module: m,
                name: n,
                keys: k,
                content: c,
            } && m == module@ && n == name@ && k == keys@ && c == content@,
            PlanNode::Container { module, name, content, kept } => node.view()
                matches NodeView::Container { module: m, name: n, content: c, kept: k } && m
                == module@ && n == name@ && c == content@ && k == kept,
            PlanNode::Relay(point) => node.view() matches NodeView::Relay {
                task: t,
                module: m,
                name: n,
                depth: d,
            } && t == point.task && m == point.module@ && n == point.name@ && d == point.depth,
        },
{
}

/// Nothing of content is lost in its view: it has the same leaves, and the same
/// steps in the same order.
pub proof fn law_content_is_seen_whole<T>(content: Subtree<T>)
    ensures
        content@.terms == content.terms@,
        content@.nodes.len() == content.nodes@.len(),
        forall|i: int|
            0 <= i < content.nodes@.len() ==> #[trigger] content@.nodes[i]
                == content.nodes@[i].view(),
{
    plan::lemma_nodes_view(content.nodes@);
}

/// Content and steps are put after what is there, which stays as it is.
pub proof fn law_content_is_put_at_the_end<T>(more: Subtree<T>, node: PlanNode<T>)
    ensures
        forall|content: &mut Subtree<T>| #[trigger]
            call_ensures(Subtree::<T>::put, (content, more), ()) ==> {
                &&& (*final(content))@.terms == content@.terms + more@.terms
                &&& (*final(content))@.nodes == content@.nodes + more@.nodes
            },
        forall|content: &mut Subtree<T>| #[trigger]
            call_ensures(Subtree::<T>::push, (content, node), ()) ==> {
                &&& (*final(content))@.terms == content@.terms
                &&& (*final(content))@.nodes == content@.nodes.push(node.view())
            },
{
}

} // verus!
