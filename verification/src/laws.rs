//! What holds of every request, whatever the providers report.
use vstd::prelude::*;

use crate::data;
use crate::data::DataView;
use crate::filter;
use crate::filter::GetFilter;
use crate::get;
use crate::get::{Error, GetPlan, Replies};
use crate::lookup;
use crate::lookup::PathNode;
use crate::plan::{DataTerm, NodeView, SubtreeView};
use crate::provider;
use crate::provider::Provider;
use crate::schema::{SchemaNode, SchemaNodeKind};
use crate::stream::EntryStream;
use crate::text;
use crate::walk;
use crate::walk::Answer;

verus! {

/// `node` is a list or container that stands below `snode` with nothing but
/// choices and cases in between, and is not left out.
pub open spec fn data_child(snode: SchemaNode, filter: GetFilter, node: SchemaNode) -> bool
    decreases snode,
{
    exists|i: int|
        0 <= i < snode.children@.len() && filter.visits(#[trigger] snode.children@[i]) && if
            snode.children@[i].kind.is_wrapper() {
            data_child(snode.children@[i], filter, node)
        } else {
            node == snode.children@[i]
        }
}

/// A step adds what the schema node describes.
pub open spec fn describes<T>(node: SchemaNode, step: NodeView<T>) -> bool {
    match step {
        NodeView::List { module, name, .. } => node.kind == SchemaNodeKind::List && module
            == node.module@ && name == node.name@,
        NodeView::Container { module, name, .. } => node.kind == SchemaNodeKind::Container
            && module == node.module@ && name == node.name@,
        NodeView::Relay { .. } => false,
    }
}

/// The data node that a step adds below `snode`, if any, is described by a
/// schema node that may stand there and is not left out, and so is every data
/// node below it.
pub open spec fn step_conforms<T>(
    snode: SchemaNode,
    filter: GetFilter,
    step: NodeView<T>,
) -> bool
    decreases step,
{
    match step {
        NodeView::Relay { .. } => true,
        NodeView::List { content, .. } | NodeView::Container { content, .. } => exists|
            node: SchemaNode,
        | #[trigger]
            data_child(snode, filter, node) && describes(node, step) && conforms(
                node,
                filter,
                content.nodes,
            ),
    }
}

/// Every data node that the steps add, at any level, is described by a schema
/// node that may stand there and is not left out.
pub open spec fn conforms<T>(
    snode: SchemaNode,
    filter: GetFilter,
    nodes: Seq<NodeView<T>>,
) -> bool
    decreases nodes,
{
    forall|i: int| 0 <= i < nodes.len() ==> step_conforms(snode, filter, #[trigger] nodes[i])
}

proof fn lemma_conforms_through_wrapper<T>(
    snode: SchemaNode,
    filter: GetFilter,
    at: int,
    nodes: Seq<NodeView<T>>,
)
    requires
        0 <= at < snode.children@.len(),
        filter.visits(snode.children@[at]),
        snode.children@[at].kind.is_wrapper(),
        conforms(snode.children@[at], filter, nodes),
    ensures
        conforms(snode, filter, nodes),
{
    let wrapper = snode.children@[at];
    assert forall|node: SchemaNode| #[trigger] data_child(wrapper, filter, node) implies data_child(
        snode,
        filter,
        node,
    ) by {}
    assert forall|i: int| 0 <= i < nodes.len() implies step_conforms(
        snode,
        filter,
        #[trigger] nodes[i],
    ) by {
        assert(step_conforms(wrapper, filter, nodes[i]));
    }
}

proof fn lemma_child_conforms<E, T>(
    snode: SchemaNode,
    filter: GetFilter,
    depth: u32,
    at: int,
    answer: Answer<E, T>,
)
    requires
        0 <= at < snode.children@.len(),
    ensures
        conforms(snode, filter, walk::child_plan(snode.children@[at], filter, depth, answer)),
    decreases snode, 0int, 0int,
{
    let child = snode.children@[at];
    let nodes = walk::child_plan(child, filter, depth, answer);
    if filter.visits(child) && !(answer is Task) {
        let below_depth = walk::deeper(depth);
        match answer {
            Answer::Group { below } if child.kind.is_wrapper() => {
                law_plan_conforms_to_schema(child, filter, below_depth, below);
                lemma_conforms_through_wrapper(snode, filter, at, nodes);
            },
            Answer::List { entries, rows } if child.kind == SchemaNodeKind::List => {
                assert(data_child(snode, filter, child));
                assert forall|i: int| 0 <= i < nodes.len() implies step_conforms(
                    snode,
                    filter,
                    #[trigger] nodes[i],
                ) by {
                    assert(nodes[i] == walk::row_plan(child, filter, below_depth, rows[i]));
                    law_plan_conforms_to_schema(child, filter, below_depth, rows[i].below);
                    assert(describes(child, nodes[i]));
                }
            },
            Answer::Container { object, below } if child.kind == SchemaNodeKind::Container => {
                assert(data_child(snode, filter, child));
                law_plan_conforms_to_schema(child, filter, below_depth, below);
                assert(describes(child, nodes[0]));
                assert(step_conforms(snode, filter, nodes[0]));
            },
            _ => {},
        }
    }
}

/// Whatever came back about the children of a node, the data that it puts
/// below the node has the shape of the schema: each list entry and each
/// container, at any level, is described by a schema node that may stand in
/// that place and that the filter does not leave out. In particular no data
/// node stands for a choice or a case.
pub proof fn law_plan_conforms_to_schema<E, T>(
    snode: SchemaNode,
    filter: GetFilter,
    depth: u32,
    below: Seq<Answer<E, T>>,
)
    ensures
        conforms(snode, filter, walk::children_plan(snode, filter, depth, below)),
    decreases snode, 1int, below.len(),
{
    if !(filter.stops_at(depth) || below.len() == 0 || below.len() > snode.children@.len()) {
        law_plan_conforms_to_schema(snode, filter, depth, below.drop_last());
        lemma_child_conforms(snode, filter, depth, below.len() - 1, below.last());
    }
}

/// No exclude entry names what a step adds, nor anything below it.
pub open spec fn step_unnamed<T>(filter: GetFilter, step: NodeView<T>) -> bool
    decreases step,
{
    match step {
        NodeView::Relay { .. } => true,
        NodeView::List { module, name, content, .. } | NodeView::Container {
            module,
            name,
            content,
            ..
        } => !filter.names(module, name) && none_named(filter, content.nodes),
    }
}

/// No list entry or container that the steps add, at any level, is named by
/// an exclude entry.
pub open spec fn none_named<T>(filter: GetFilter, nodes: Seq<NodeView<T>>) -> bool
    decreases nodes,
{
    forall|i: int| 0 <= i < nodes.len() ==> step_unnamed(filter, #[trigger] nodes[i])
}

proof fn lemma_data_child(snode: SchemaNode, filter: GetFilter, node: SchemaNode)
    requires
        data_child(snode, filter, node),
    ensures
        filter.visits(node),
        !node.kind.is_wrapper(),
    decreases snode,
{
    let at = choose|i: int|
        0 <= i < snode.children@.len() && filter.visits(#[trigger] snode.children@[i]) && if
            snode.children@[i].kind.is_wrapper() {
            data_child(snode.children@[i], filter, node)
        } else {
            node == snode.children@[i]
        };
    if snode.children@[at].kind.is_wrapper() {
        lemma_data_child(snode.children@[at], filter, node);
    }
}

proof fn lemma_conforming_is_not_named<T>(
    snode: SchemaNode,
    filter: GetFilter,
    nodes: Seq<NodeView<T>>,
)
    requires
        conforms(snode, filter, nodes),
    ensures
        none_named(filter, nodes),
    decreases nodes,
{
    assert forall|i: int| 0 <= i < nodes.len() implies step_unnamed(
        filter,
        #[trigger] nodes[i],
    ) by {
        assert(step_conforms(snode, filter, nodes[i]));
        match nodes[i] {
            NodeView::Relay { .. } => {},
            NodeView::List { content, .. } | NodeView::Container { content, .. } => {
                let node = choose|node: SchemaNode| #[trigger]
                    data_child(snode, filter, node) && describes(node, nodes[i]) && conforms(
                        node,
                        filter,
                        content.nodes,
                    );
                lemma_data_child(snode, filter, node);
                lemma_conforming_is_not_named(node, filter, content.nodes);
            },
        }
    }
}

/// Whatever came back about the children of a node, no list entry and no
/// container that an exclude entry names is put below the node, at any level.
pub proof fn law_excluded_data_is_absent<E, T>(
    snode: SchemaNode,
    filter: GetFilter,
    depth: u32,
    below: Seq<Answer<E, T>>,
)
    ensures
        none_named(filter, walk::children_plan(snode, filter, depth, below)),
{
    law_plan_conforms_to_schema(snode, filter, depth, below);
    lemma_conforming_is_not_named(
        snode,
        filter,
        walk::children_plan(snode, filter, depth, below),
    );
}

/// A list or container that an exclude entry names is neither walked nor asked
/// of another task. Choices and cases are looked at whatever the entries say.
pub proof fn law_exclude_spares_wrappers<E, T>(
    child: SchemaNode,
    filter: GetFilter,
    depth: u32,
    answer: Answer<E, T>,
)
    requires
        filter.names(child.module@, child.name@),
    ensures
        filter.visits(child) == child.kind.is_wrapper(),
        !child.kind.is_wrapper() ==> walk::child_plan(child, filter, depth, answer).len() == 0,
{
}

/// A filter without a limit and without exclude entries leaves nothing out.
pub proof fn law_empty_filter_keeps_all(filter: GetFilter, child: SchemaNode, depth: u32)
    requires
        filter.max_depth == 0,
        filter.exclude@.len() == 0,
    ensures
        !filter.stops_at(depth),
        filter.visits(child) == child.kind.is_interior(),
{
}

/// A step adds data nodes on at most `levels` levels, and relays nothing from
/// below them.
pub open spec fn step_within<T>(levels: int, step: NodeView<T>) -> bool
    decreases step,
{
    levels > 0 && match step {
        NodeView::Relay { .. } => true,
        NodeView::List { content, .. } | NodeView::Container { content, .. } => within(
            levels - 1,
            content.nodes,
        ),
    }
}

/// The steps add data nodes on at most `levels` levels, and relay nothing from
/// below them.
pub open spec fn within<T>(levels: int, nodes: Seq<NodeView<T>>) -> bool
    decreases nodes,
{
    forall|i: int| 0 <= i < nodes.len() ==> step_within(levels, #[trigger] nodes[i])
}

proof fn lemma_within_more<T>(fewer: int, more: int, nodes: Seq<NodeView<T>>)
    requires
        fewer <= more,
        within(fewer, nodes),
    ensures
        within(more, nodes),
    decreases nodes,
{
    assert forall|i: int| 0 <= i < nodes.len() implies step_within(more, #[trigger] nodes[i]) by {
        assert(step_within(fewer, nodes[i]));
        match nodes[i] {
            NodeView::Relay { .. } => {},
            NodeView::List { content, .. } | NodeView::Container { content, .. } => {
                lemma_within_more(fewer - 1, more - 1, content.nodes);
            },
        }
    }
}

proof fn lemma_node_within<E, T>(
    snode: SchemaNode,
    filter: GetFilter,
    depth: u32,
    answer: Answer<E, T>,
)
    requires
        filter.max_depth > 0,
        depth <= filter.max_depth,
    ensures
        within(filter.max_depth - depth + 1, walk::node_plan(snode, filter, depth, answer)),
    decreases snode, 1int, 0int,
{
    let nodes = walk::node_plan(snode, filter, depth, answer);
    match answer {
        Answer::Group { below } if snode.kind.is_wrapper() => {
            law_depth_limit_holds(snode, filter, depth, below);
            lemma_within_more(filter.max_depth - depth, filter.max_depth - depth + 1, nodes);
        },
        Answer::List { entries, rows } if snode.kind == SchemaNodeKind::List => {
            assert forall|i: int| 0 <= i < nodes.len() implies step_within(
                filter.max_depth - depth + 1,
                #[trigger] nodes[i],
            ) by {
                assert(nodes[i] == walk::row_plan(snode, filter, depth, rows[i]));
                law_depth_limit_holds(snode, filter, depth, rows[i].below);
            }
        },
        Answer::Container { object, below } if snode.kind == SchemaNodeKind::Container => {
            law_depth_limit_holds(snode, filter, depth, below);
        },
        _ => {},
    }
}

/// A limit on the depth holds: below a node at `depth`, data nodes are put on
/// no more levels than the limit leaves, and nothing further down is relayed.
pub proof fn law_depth_limit_holds<E, T>(
    snode: SchemaNode,
    filter: GetFilter,
    depth: u32,
    below: Seq<Answer<E, T>>,
)
    requires
        filter.max_depth > 0,
    ensures
        within(filter.max_depth - depth, walk::children_plan(snode, filter, depth, below)),
    decreases snode, 0int, below.len(),
{
    if !(filter.stops_at(depth) || below.len() == 0 || below.len() > snode.children@.len()) {
        law_depth_limit_holds(snode, filter, depth, below.drop_last());
        let child = snode.children@[below.len() - 1];
        lemma_node_within(child, filter, walk::deeper(depth), below.last());
        assert(within(
            filter.max_depth - depth,
            walk::child_plan(child, filter, depth, below.last()),
        ));
    }
}

/// Everything that a step relays, at any level, is relayed from a data node at
/// which the limit is not reached.
pub open spec fn step_relays_before_limit<T>(filter: GetFilter, step: NodeView<T>) -> bool
    decreases step,
{
    match step {
        NodeView::Relay { depth, .. } => !filter.stops_at(depth),
        NodeView::List { content, .. } | NodeView::Container { content, .. } => relays_before_limit(
            filter,
            content.nodes,
        ),
    }
}

/// Everything that the steps relay, at any level, is relayed from a data node
/// at which the limit is not reached.
pub open spec fn relays_before_limit<T>(filter: GetFilter, nodes: Seq<NodeView<T>>) -> bool
    decreases nodes,
{
    forall|i: int|
        0 <= i < nodes.len() ==> step_relays_before_limit(filter, #[trigger] nodes[i])
}

proof fn lemma_node_relays_before_limit<E, T>(
    snode: SchemaNode,
    filter: GetFilter,
    depth: u32,
    answer: Answer<E, T>,
)
    ensures
        relays_before_limit(filter, walk::node_plan(snode, filter, depth, answer)),
    decreases snode, 1int, 0int,
{
    let nodes = walk::node_plan(snode, filter, depth, answer);
    match answer {
        Answer::Group { below } if snode.kind.is_wrapper() => {
            law_relays_come_before_the_limit(snode, filter, depth, below);
        },
        Answer::List { entries, rows } if snode.kind == SchemaNodeKind::List => {
            assert forall|i: int| 0 <= i < nodes.len() implies step_relays_before_limit(
                filter,
                #[trigger] nodes[i],
            ) by {
                assert(nodes[i] == walk::row_plan(snode, filter, depth, rows[i]));
                law_relays_come_before_the_limit(snode, filter, depth, rows[i].below);
            }
        },
        Answer::Container { object, below } if snode.kind == SchemaNodeKind::Container => {
            law_relays_come_before_the_limit(snode, filter, depth, below);
        },
        _ => {},
    }
}

/// Whatever came back about the children of a node, nothing is relayed from a
/// data node at which the limit is reached. So the limit of a relayed request
/// is exactly what is left of that of the request.
pub proof fn law_relays_come_before_the_limit<E, T>(
    snode: SchemaNode,
    filter: GetFilter,
    depth: u32,
    below: Seq<Answer<E, T>>,
)
    ensures
        relays_before_limit(filter, walk::children_plan(snode, filter, depth, below)),
    decreases snode, 0int, below.len(),
{
    if !(filter.stops_at(depth) || below.len() == 0 || below.len() > snode.children@.len()) {
        law_relays_come_before_the_limit(snode, filter, depth, below.drop_last());
        let child = snode.children@[below.len() - 1];
        lemma_node_relays_before_limit(child, filter, walk::deeper(depth), below.last());
        assert(relays_before_limit(filter, walk::child_plan(child, filter, depth, below.last())));
    }
}

/// No container, at any level, is empty.
pub open spec fn no_empty_container(data: Seq<DataView>) -> bool
    decreases data,
{
    forall|i: int|
        0 <= i < data.len() ==> match #[trigger] data[i] {
            DataView::List { nodes, .. } => no_empty_container(nodes),
            DataView::Container { terms, nodes, .. } => (terms.len() > 0 || nodes.len() > 0)
                && no_empty_container(nodes),
        }
}

/// Every container that a step adds, at any level, is kept if and only if
/// something is left in it.
pub open spec fn step_tidy<T>(step: NodeView<T>) -> bool
    decreases step,
{
    match step {
        NodeView::Relay { .. } => true,
        NodeView::List { content, .. } => tidy(content.nodes),
        NodeView::Container { content, kept, .. } => kept == !content.is_empty() && tidy(
            content.nodes,
        ),
    }
}

/// Every container, at any level, is kept if and only if something is left in
/// it.
pub open spec fn tidy<T>(nodes: Seq<NodeView<T>>) -> bool
    decreases nodes,
{
    forall|i: int| 0 <= i < nodes.len() ==> step_tidy(#[trigger] nodes[i])
}

proof fn lemma_tidy_leaves_no_empty<T>(nodes: Seq<NodeView<T>>)
    requires
        tidy(nodes),
    ensures
        no_empty_container(data::data_left(nodes)),
    decreases nodes,
{
    if nodes.len() > 0 {
        let init = nodes.drop_last();
        lemma_tidy_leaves_no_empty(init);
        assert(step_tidy(nodes[nodes.len() - 1]));
        match nodes.last() {
            NodeView::Relay { .. } => {},
            NodeView::List { content, .. } => {
                lemma_tidy_leaves_no_empty(content.nodes);
            },
            NodeView::Container { content, kept, .. } => {
                lemma_tidy_leaves_no_empty(content.nodes);
                data::lemma_data_left_len(content.nodes);
            },
        }
    }
}

proof fn lemma_node_tidy<E, T>(
    snode: SchemaNode,
    filter: GetFilter,
    depth: u32,
    answer: Answer<E, T>,
)
    ensures
        tidy(walk::node_plan(snode, filter, depth, answer)),
    decreases snode, 1int, 0int,
{
    let nodes = walk::node_plan(snode, filter, depth, answer);
    match answer {
        Answer::Group { below } if snode.kind.is_wrapper() => {
            lemma_children_tidy(snode, filter, depth, below);
        },
        Answer::List { entries, rows } if snode.kind == SchemaNodeKind::List => {
            assert forall|i: int| 0 <= i < nodes.len() implies step_tidy(#[trigger] nodes[i]) by {
                assert(nodes[i] == walk::row_plan(snode, filter, depth, rows[i]));
                lemma_children_tidy(snode, filter, depth, rows[i].below);
            }
        },
        Answer::Container { object, below } if snode.kind == SchemaNodeKind::Container => {
            lemma_children_tidy(snode, filter, depth, below);
        },
        _ => {},
    }
}

proof fn lemma_children_tidy<E, T>(
    snode: SchemaNode,
    filter: GetFilter,
    depth: u32,
    below: Seq<Answer<E, T>>,
)
    ensures
        tidy(walk::children_plan(snode, filter, depth, below)),
    decreases snode, 0int, below.len(),
{
    if !(filter.stops_at(depth) || below.len() == 0 || below.len() > snode.children@.len()) {
        lemma_children_tidy(snode, filter, depth, below.drop_last());
        let child = snode.children@[below.len() - 1];
        lemma_node_tidy(child, filter, walk::deeper(depth), below.last());
        assert(tidy(walk::child_plan(child, filter, depth, below.last())));
    }
}

/// Whatever came back about the children of a node, no container that is put
/// below the node and stays there is empty, at any level.
pub proof fn law_no_container_stays_empty<E, T>(
    snode: SchemaNode,
    filter: GetFilter,
    depth: u32,
    below: Seq<Answer<E, T>>,
)
    ensures
        no_empty_container(data::data_left(walk::children_plan(snode, filter, depth, below))),
{
    lemma_children_tidy(snode, filter, depth, below);
    lemma_tidy_leaves_no_empty(walk::children_plan(snode, filter, depth, below));
}

/// Content is empty exactly if it leaves nothing in the data tree.
pub proof fn law_empty_leaves_nothing<T>(content: SubtreeView<T>)
    ensures
        content.is_empty() <==> content.terms.len() == 0 && data::data_left(content.nodes).len() == 0,
{
    data::lemma_data_left_len(content.nodes);
}

/// A relayed request is without a limit exactly if the request itself is. Its
/// limit is never zero by subtraction, and never more than that of the request.
pub proof fn law_relay_keeps_the_limit(max_depth: u32, depth: u32)
    ensures
        filter::relayed_depth(max_depth, depth) == 0 <==> max_depth == 0,
        filter::relayed_depth(max_depth, depth) <= max_depth,
        depth < max_depth ==> filter::relayed_depth(max_depth, depth) == max_depth - depth,
        filter::relayed_depth(max_depth, 0) == max_depth,
{
}

/// A request that is relayed from a node at which the limit is not reached
/// stops where the request itself would have stopped, counted from that node.
pub proof fn law_relay_continues_the_count(
    request: GetFilter,
    relayed: GetFilter,
    depth: u32,
    further: u32,
)
    requires
        !request.stops_at(depth),
        relayed.max_depth == filter::relayed_depth(request.max_depth, depth),
        depth + further <= u32::MAX,
    ensures
        relayed.stops_at(further) <==> request.stops_at((depth + further) as u32),
{
}

/// An exclude entry without a colon names the nodes of that name in every
/// module, and no others.
pub proof fn law_plain_exclude_entry(entry: Seq<char>, module: Seq<char>, name: Seq<char>)
    requires
        !entry.contains(':'),
    ensures
        filter::entry_names(entry, module, name) <==> entry == name,
{
    entry.index_of_first_ensures(':');
}

/// An exclude entry made of a module name, a colon and a node name names that
/// node of that module, and no others.
pub proof fn law_qualified_exclude_entry(
    entry_module: Seq<char>,
    entry_name: Seq<char>,
    module: Seq<char>,
    name: Seq<char>,
)
    requires
        !entry_module.contains(':'),
    ensures
        filter::entry_names(entry_module + seq![':'] + entry_name, module, name) <==> (
        entry_module == module && entry_name == name),
{
    let entry = entry_module + seq![':'] + entry_name;
    let at = entry_module.len() as int;
    entry.index_of_first_ensures(':');
    assert(entry[at] == ':');
    assert(entry.contains(':'));
    let first = entry.index_of_first(':')->0;
    if first < at {
        assert(entry[first] == entry_module[first]);
        assert(entry_module.contains(':'));
    }
    assert(text::parts_around(entry, at).0 =~= entry_module);
    assert(text::parts_around(entry, at).1 =~= entry_name);
}

/// The two parts of the path of a StreamGet request make up the path again,
/// and the name of the list is free of slashes. A path has no parts exactly if
/// it has no slash.
pub proof fn law_stream_path_parts(path: Seq<char>)
    ensures
        match text::last_split(path, '/') {
            Some((parent, terminal)) => path == parent + seq!['/'] + terminal
                && !terminal.contains('/'),
            None => !path.contains('/'),
        },
{
    path.index_of_last_ensures('/');
    if let Some(at) = path.index_of_last('/') {
        let (parent, terminal) = text::parts_around(path, at);
        assert(path =~= parent + seq!['/'] + terminal);
        assert forall|i: int| 0 <= i < terminal.len() implies terminal[i] != '/' by {
            assert(terminal[i] == path[at + 1 + i]);
        }
    }
}

/// What is put below a data node respects the filter: nothing that is left
/// out, no more levels than the limit allows, no request beyond the limit, and
/// no empty container.
pub open spec fn respects<T>(filter: GetFilter, nodes: Seq<NodeView<T>>) -> bool {
    &&& none_named(filter, nodes)
    &&& filter.max_depth > 0 ==> within(filter.max_depth as int, nodes)
    &&& relays_before_limit(filter, nodes)
    &&& no_empty_container(data::data_left(nodes))
}

proof fn lemma_children_respect<E, T>(
    snode: SchemaNode,
    filter: GetFilter,
    below: Seq<Answer<E, T>>,
)
    ensures
        respects(filter, walk::children_plan(snode, filter, 0, below)),
{
    law_excluded_data_is_absent(snode, filter, 0, below);
    law_no_container_stays_empty(snode, filter, 0, below);
    law_relays_come_before_the_limit(snode, filter, 0, below);
    if filter.max_depth > 0 {
        law_depth_limit_holds(snode, filter, 0, below);
    }
}

/// A Get request that is served locally respects its filter, whatever the
/// provider reports. The data node that the request names is no matter of the
/// filter: only what is below it is.
pub proof fn law_get_respects_filter<'a, P: Provider>(
    provider: &'a P,
    path: Seq<char>,
    snode: SchemaNode,
    list_entry: &P::ListEntry<'a>,
    filter: GetFilter,
    plan: GetPlan<P::Task>,
)
    requires
        get::get_served(provider, path, snode, list_entry, filter, plan),
    ensures
        plan matches GetPlan::Local { content, .. } ==> respects(filter, content@.nodes),
{
    if let GetPlan::Local { content, .. } = plan {
        let empty = SubtreeView::<P::Task>::empty();
        if snode.kind == SchemaNodeKind::List {
            let below = walk::children_answers(
                provider,
                snode,
                list_entry,
                filter,
                0,
                empty,
                content@,
            );
            assert(content@.nodes =~= walk::children_plan(snode, filter, 0, below));
            lemma_children_respect(snode, filter, below);
        } else {
            let answer = walk::node_answer(
                provider,
                snode,
                list_entry,
                true,
                filter,
                0,
                empty,
                content@,
            );
            let nodes = walk::node_content(snode, true, filter, 0, answer).nodes;
            assert(content@.nodes =~= nodes);
            match answer {
                Answer::Container { object, below } => {
                    lemma_children_respect(snode, filter, below);
                },
                Answer::Group { below } => {
                    lemma_children_respect(snode, filter, below);
                },
                _ => {
                    assert(nodes.len() == 0);
                },
            }
        }
    }
}

/// An entry that a stream delivers respects the filter of the request,
/// whatever the provider reports.
pub proof fn law_streamed_entry_respects_filter<'a, P: Provider>(
    provider: &'a P,
    snode: SchemaNode,
    list_entry: &P::ListEntry<'a>,
    filter: GetFilter,
    terms: Seq<DataTerm>,
    content: SubtreeView<P::Task>,
)
    requires
        walk::children_walked(
            provider,
            snode,
            list_entry,
            filter,
            0,
            SubtreeView { terms, nodes: Seq::empty() },
            content,
        ),
    ensures
        content.terms == terms,
        respects(filter, content.nodes),
{
    let fresh = SubtreeView::<P::Task> { terms, nodes: Seq::empty() };
    let below = walk::children_answers(
        provider,
        snode,
        list_entry,
        filter,
        0,
        fresh,
        content,
    );
    assert(content.nodes =~= walk::children_plan(snode, filter, 0, below));
    lemma_children_respect(snode, filter, below);
}

/// A data node that is in no list which the provider serves belongs to a
/// default entry, and the provider is asked nothing about it.
pub proof fn law_node_outside_served_lists<'a, P: Provider>(
    provider: &'a P,
    nodes: Seq<PathNode>,
    entry: P::ListEntry<'a>,
    found: P::ListEntry<'a>,
)
    requires
        forall|i: int|
            0 <= i < nodes.len() ==> (#[trigger] nodes[i]).kind != SchemaNodeKind::List
                || provider::list_ops_at::<P>(nodes[i].data_path@) is None,
    ensures
        lookup::entry_told(provider, nodes, entry, found) <==> found == entry,
    decreases nodes.len(),
{
    if nodes.len() > 0 {
        assert(nodes.last() == nodes[nodes.len() - 1]);
        law_node_outside_served_lists(provider, nodes.drop_last(), entry, found);
        if found == entry {
            assert(lookup::step_told(provider, nodes.last(), entry, Some(entry)));
        }
    }
}

/// A request takes the replies to its relayed requests in the order of
/// relaying, as long as they are merged. `run` are the states that it goes
/// through, from the start on.
pub open spec fn replies_taken<Y>(
    run: Seq<Replies>,
    outcomes: Seq<Result<Result<(), Y>, Error<Y>>>,
    results: Seq<Result<(), Error<Y>>>,
) -> bool {
    &&& run.len() == outcomes.len() + 1
    &&& results.len() == outcomes.len()
    &&& run[0].merged == 0
    &&& forall|i: int, j: int|
        0 <= i && j == i + 1 && j < run.len() ==> {
            &&& (#[trigger] run[i]).merged < run[i].total
            &&& run[i].settles(outcomes[i], results[i], #[trigger] run[j])
        }
    &&& forall|i: int| 0 <= i < results.len() - 1 ==> (#[trigger] results[i]) is Ok
}

/// The n-th state of a run is about the n-th reply, every reply before which
/// is merged. So a request that has nothing left to take, and did not fail,
/// has merged the reply to every relayed request. One that failed did so with
/// the failure of the first reply that went wrong, and merged no reply after
/// that one.
pub proof fn law_first_failure_counts<Y>(
    run: Seq<Replies>,
    outcomes: Seq<Result<Result<(), Y>, Error<Y>>>,
    results: Seq<Result<(), Error<Y>>>,
    at: int,
)
    requires
        replies_taken(run, outcomes, results),
        0 <= at < run.len(),
    ensures
        run[at].total == run[0].total,
        run[at].wf(),
        forall|i: int| 0 <= i < at ==> results[i] == get::settled(#[trigger] outcomes[i]),
        forall|i: int| 0 <= i < at - 1 ==> get::settled(#[trigger] outcomes[i]) is Ok,
        at > 0 && results[at - 1] is Err ==> at == outcomes.len() && run[at].merged == at - 1,
        at == 0 || results[at - 1] is Ok ==> run[at].merged == at,
        forall|i: int| 0 <= i < at - 1 ==> (#[trigger] outcomes[i]) matches Ok(Ok(_)),
        at > 0 ==> match outcomes[at - 1] {
            Ok(Ok(_)) => results[at - 1] is Ok && run[at].merged == at,
            Ok(Err(said)) => {
                &&& results[at - 1] matches Err(Error::YangInvalidData(error)) && error == said
                &&& at == outcomes.len()
                &&& run[at].merged == at - 1
            },
            Err(said) => {
                &&& results[at - 1] matches Err(error) && error == said
                &&& at == outcomes.len()
                &&& run[at].merged == at - 1
            },
        },
    decreases at,
{
    if at > 0 {
        law_first_failure_counts(run, outcomes, results, at - 1);
        assert(run[at - 1].settles(outcomes[at - 1], results[at - 1], run[at]));
        assert(at - 1 > 0 ==> results[at - 2] is Ok);
        if at < outcomes.len() {
            assert(results[at - 1] is Ok);
        }
    }
}

/// A stream goes through the entries of the list: those that it hands out are
/// those that the iterator of the list hands out, in that order, of the same
/// list and for the same request all along. At the end none is left out.
pub proof fn law_stream_goes_through_the_list<'a, P: Provider>(
    run: Seq<EntryStream<'a, P>>,
    entries: Seq<P::ListEntry<'a>>,
)
    requires
        run.len() == entries.len() + 1,
        run[0].iter() is Some,
        forall|i: int, j: int|
            0 <= i && j == i + 1 && j < run.len() ==> (#[trigger] run[i]).advanced(
                entries[i],
                #[trigger] run[j],
            ),
    ensures
        run.last().list() == run[0].list(),
        run.last().iter() is Some,
        provider::drawn(run[0].iter()->0, entries, run.last().iter()->0),
        run.last().ended() ==> provider::drained(run[0].iter()->0, entries),
    decreases entries.len(),
{
    if entries.len() > 0 {
        law_stream_goes_through_the_list(run.drop_last(), entries.drop_last());
        let before = run[run.len() - 2];
        assert(before.advanced(entries.last(), run.last()));
        provider::lemma_drawn_next(
            run[0].iter()->0,
            entries.drop_last(),
            before.iter()->0,
            entries.last(),
            run.last().iter()->0,
        );
        assert(entries.drop_last().push(entries.last()) =~= entries);
    }
}

} // verus!
