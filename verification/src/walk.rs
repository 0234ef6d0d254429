//! The walk over the schema below a data node.
//!
//! A provider may answer the same question differently each time it is asked.
//! What a walk yields is therefore stated in two parts: the answers that came
//! back, each to the question that was due, and the plan that follows from
//! those answers alone.
use vstd::prelude::*;

use crate::filter::GetFilter;
use crate::plan::{DataTerm, NodeView, PlanNode, RelayPoint, Subtree, SubtreeView, YangObject};
use crate::provider;
use crate::provider::{
    container_ops, list_ops, ListEntryKind, ListIterator, Provider, YangListOps,
};
use crate::schema::{SchemaNode, SchemaNodeKind};

verus! {

/// What came back about one schema node.
pub enum Answer<E, T> {
    /// Nothing was asked.
    Unasked,
    /// Another task answers for the node.
    Task(T),
    /// The entries of a list, and what came back about each of them.
    List { entries: Seq<E>, rows: Seq<Row<E, T>> },
    /// The report on a container, and what came back about its children.
    Container { object: Option<YangObject>, below: Seq<Answer<E, T>> },
    /// What came back about the children of a choice or case.
    Group { below: Seq<Answer<E, T>> },
}

/// What came back about one list entry.
pub struct Row<E, T> {
    pub object: YangObject,
    pub below: Seq<Answer<E, T>>,
}

/// The depth of the children of a node at `depth`.
pub open spec fn deeper(depth: u32) -> u32 {
    if depth < u32::MAX {
        (depth + 1) as u32
    } else {
        depth
    }
}

/// `task` can be what the list entry says about a child of `module`.
pub open spec fn task_told<E: ListEntryKind>(
    list_entry: &E,
    module: Seq<char>,
    task: Option<E::Task>,
) -> bool {
    exists|name: &str|
        name@ == module && #[trigger] call_ensures(E::child_task, (list_entry, name), task)
}

/// `row` can be what came back about an entry of a list.
pub open spec fn row_told<'a, P: Provider>(
    provider: &'a P,
    snode: SchemaNode,
    ops: YangListOps,
    list_entry: &P::ListEntry<'a>,
    filter: GetFilter,
    depth: u32,
    row: Row<P::ListEntry<'a>, P::Task>,
) -> bool
    decreases snode, 2int,
{
    &&& call_ensures(P::list_new, (provider, &ops, list_entry), row.object)
    &&& children_told(provider, snode, list_entry, filter, depth, row.below)
}

/// `entries` can be the entries of a list, and `rows` what came back about
/// them.
pub open spec fn list_told<'a, P: Provider>(
    provider: &'a P,
    snode: SchemaNode,
    parent_list_entry: &P::ListEntry<'a>,
    filter: GetFilter,
    depth: u32,
    entries: Seq<P::ListEntry<'a>>,
    rows: Seq<Row<P::ListEntry<'a>, P::Task>>,
) -> bool
    decreases snode, 3int,
{
    &&& rows.len() == entries.len()
    &&& match provider::list_ops_at::<P>(snode.data_path@) {
        None => entries.len() == 0,
        Some(ops) => {
            &&& provider::entries_told(provider, ops, parent_list_entry, entries)
            &&& forall|i: int|
                0 <= i < rows.len() ==> row_told(
                    provider,
                    snode,
                    ops,
                    &entries[i],
                    filter,
                    depth,
                    #[trigger] rows[i],
                )
        },
    }
}

/// `object` can be the report on a container, and `below` what came back about
/// its children.
pub open spec fn container_told<'a, P: Provider>(
    provider: &'a P,
    snode: SchemaNode,
    list_entry: &P::ListEntry<'a>,
    filter: GetFilter,
    depth: u32,
    object: Option<YangObject>,
    below: Seq<Answer<P::ListEntry<'a>, P::Task>>,
) -> bool
    decreases snode, 3int,
{
    &&& match provider::container_ops_at::<P>(snode.data_path@) {
        None => object is None,
        Some(ops) => call_ensures(P::container_new, (provider, &ops, list_entry), object),
    }
    &&& children_told(provider, snode, list_entry, filter, depth, below)
}

/// `answer` can be what came back about a schema node at `depth`.
pub open spec fn node_told<'a, P: Provider>(
    provider: &'a P,
    snode: SchemaNode,
    list_entry: &P::ListEntry<'a>,
    filter: GetFilter,
    depth: u32,
    answer: Answer<P::ListEntry<'a>, P::Task>,
) -> bool
    decreases snode, 4int,
{
    match snode.kind {
        SchemaNodeKind::List => match answer {
            Answer::List { entries, rows } => list_told(
                provider,
                snode,
                list_entry,
                filter,
                depth,
                entries,
                rows,
            ),
            _ => false,
        },
        SchemaNodeKind::Container => match answer {
            Answer::Container { object, below } => container_told(
                provider,
                snode,
                list_entry,
                filter,
                depth,
                object,
                below,
            ),
            _ => false,
        },
        SchemaNodeKind::Choice | SchemaNodeKind::Case => match answer {
            Answer::Group { below } => children_told(
                provider,
                snode,
                list_entry,
                filter,
                depth,
                below,
            ),
            _ => false,
        },
        _ => answer is Unasked,
    }
}

/// `answer` can be what came back about a child of a node at `depth`.
pub open spec fn child_told<'a, P: Provider>(
    provider: &'a P,
    child: SchemaNode,
    list_entry: &P::ListEntry<'a>,
    filter: GetFilter,
    depth: u32,
    answer: Answer<P::ListEntry<'a>, P::Task>,
) -> bool
    decreases child, 5int,
{
    if !filter.visits(child) {
        answer is Unasked
    } else {
        match answer {
            Answer::Task(task) => task_told(list_entry, child.module@, Some(task)),
            _ => {
                &&& task_told(list_entry, child.module@, None)
                &&& node_told(provider, child, list_entry, filter, deeper(depth), answer)
            },
        }
    }
}

/// `below` can be what came back about the children of a node at `depth`.
pub open spec fn children_told<'a, P: Provider>(
    provider: &'a P,
    snode: SchemaNode,
    list_entry: &P::ListEntry<'a>,
    filter: GetFilter,
    depth: u32,
    below: Seq<Answer<P::ListEntry<'a>, P::Task>>,
) -> bool
    decreases snode, 1int,
{
    if filter.stops_at(depth) {
        below.len() == 0
    } else {
        &&& below.len() == snode.children@.len()
        &&& forall|i: int|
            0 <= i < snode.children@.len() ==> child_told(
                provider,
                snode.children@[i],
                list_entry,
                filter,
                depth,
                #[trigger] below[i],
            )
    }
}

/// The leaves of an optional report.
pub open spec fn object_terms(object: Option<YangObject>) -> Seq<DataTerm> {
    match object {
        Some(object) => object.terms@,
        None => Seq::empty(),
    }
}

/// The list entry that a report stands for.
pub open spec fn row_plan<E, T>(
    snode: SchemaNode,
    filter: GetFilter,
    depth: u32,
    row: Row<E, T>,
) -> NodeView<T>
    decreases snode, 1int, 0int,
{
    NodeView::List {
        module: snode.module@,
        name: snode.name@,
        keys: row.object.list_keys@,
        content: SubtreeView {
            terms: row.object.terms@,
            nodes: children_plan(snode, filter, depth, row.below),
        },
    }
}

/// The list entries that the answers about a list stand for, in order.
pub open spec fn list_plan<E, T>(
    snode: SchemaNode,
    filter: GetFilter,
    depth: u32,
    rows: Seq<Row<E, T>>,
) -> Seq<NodeView<T>>
    decreases snode, 2int, 0int,
{
    Seq::new(rows.len(), |i: int| row_plan(snode, filter, depth, rows[i]))
}

/// What the answers about a container put below it.
pub open spec fn container_content<E, T>(
    snode: SchemaNode,
    filter: GetFilter,
    depth: u32,
    object: Option<YangObject>,
    below: Seq<Answer<E, T>>,
) -> SubtreeView<T>
    decreases snode, 1int, 0int,
{
    SubtreeView {
        terms: object_terms(object),
        nodes: children_plan(snode, filter, depth, below),
    }
}

/// The container that `content` goes into. It stays only if something is left
/// in it.
pub open spec fn container_node<T>(snode: SchemaNode, content: SubtreeView<T>) -> NodeView<T> {
    NodeView::Container {
        module: snode.module@,
        name: snode.name@,
        content,
        kept: !content.is_empty(),
    }
}

/// The steps that follow from the answer about a schema node at `depth`.
pub open spec fn node_plan<E, T>(
    snode: SchemaNode,
    filter: GetFilter,
    depth: u32,
    answer: Answer<E, T>,
) -> Seq<NodeView<T>>
    decreases snode, 3int, 0int,
{
    match (snode.kind, answer) {
        (SchemaNodeKind::List, Answer::List { rows, .. }) => list_plan(snode, filter, depth, rows),
        (SchemaNodeKind::Container, Answer::Container { object, below }) => seq![
            container_node(snode, container_content(snode, filter, depth, object, below)),
        ],
        (SchemaNodeKind::Choice | SchemaNodeKind::Case, Answer::Group { below }) => children_plan(
            snode,
            filter,
            depth,
            below,
        ),
        _ => Seq::empty(),
    }
}

/// The steps that follow from the answer about a child of a node at `depth`.
pub open spec fn child_plan<E, T>(
    child: SchemaNode,
    filter: GetFilter,
    depth: u32,
    answer: Answer<E, T>,
) -> Seq<NodeView<T>>
    decreases child, 4int, 0int,
{
    if !filter.visits(child) {
        Seq::empty()
    } else {
        match answer {
            Answer::Task(task) => seq![
                NodeView::Relay { task, module: child.module@, name: child.name@, depth },
            ],
            _ => node_plan(child, filter, deeper(depth), answer),
        }
    }
}

/// The steps that follow from the answers about the first children of a node
/// at `depth`, in schema order.
pub open spec fn children_plan<E, T>(
    snode: SchemaNode,
    filter: GetFilter,
    depth: u32,
    below: Seq<Answer<E, T>>,
) -> Seq<NodeView<T>>
    decreases snode, 0int, below.len(),
{
    if filter.stops_at(depth) || below.len() == 0 || below.len() > snode.children@.len() {
        Seq::empty()
    } else {
        children_plan(snode, filter, depth, below.drop_last()) + child_plan(
            snode.children@[below.len() - 1],
            filter,
            depth,
            below.last(),
        )
    }
}

/// The steps that follow from the answer about one more child come after those
/// of the children before it.
pub proof fn lemma_children_plan_push<E, T>(
    snode: SchemaNode,
    filter: GetFilter,
    depth: u32,
    below: Seq<Answer<E, T>>,
    answer: Answer<E, T>,
)
    requires
        !filter.stops_at(depth),
        below.len() < snode.children@.len(),
    ensures
        children_plan(snode, filter, depth, below.push(answer)) == children_plan(
            snode,
            filter,
            depth,
            below,
        ) + child_plan(snode.children@[below.len() as int], filter, depth, answer),
{
    assert(below.push(answer).drop_last() =~= below);
}

/// What the answer about a schema node at `depth` puts below a data node. The
/// `first` node of a walk is the schema of that data node itself.
pub open spec fn node_content<E, T>(
    snode: SchemaNode,
    first: bool,
    filter: GetFilter,
    depth: u32,
    answer: Answer<E, T>,
) -> SubtreeView<T> {
    match answer {
        Answer::Container { object, below } if first && snode.kind
            == SchemaNodeKind::Container => container_content(snode, filter, depth, object, below),
        _ => SubtreeView::of_nodes(node_plan(snode, filter, depth, answer)),
    }
}

/// The walk of a list put the entries that came back after `before`.
pub open spec fn list_walked<'a, P: Provider>(
    provider: &'a P,
    snode: SchemaNode,
    parent_list_entry: &P::ListEntry<'a>,
    filter: GetFilter,
    depth: u32,
    before: SubtreeView<P::Task>,
    after: SubtreeView<P::Task>,
) -> bool {
    exists|entries: Seq<P::ListEntry<'a>>, rows: Seq<Row<P::ListEntry<'a>, P::Task>>|
        #[trigger]
        list_told(provider, snode, parent_list_entry, filter, depth, entries, rows) && after
            == before.then_put(SubtreeView::of_nodes(list_plan(snode, filter, depth, rows)))
}

/// The walk of a container put what came back after `before`.
pub open spec fn container_walked<'a, P: Provider>(
    provider: &'a P,
    snode: SchemaNode,
    list_entry: &P::ListEntry<'a>,
    first: bool,
    filter: GetFilter,
    depth: u32,
    before: SubtreeView<P::Task>,
    after: SubtreeView<P::Task>,
) -> bool {
    exists|object: Option<YangObject>, below: Seq<Answer<P::ListEntry<'a>, P::Task>>|
        #[trigger]
        container_told(provider, snode, list_entry, filter, depth, object, below) && after == {
            let content = container_content(snode, filter, depth, object, below);
            if first {
                before.then_put(content)
            } else {
                before.then_put(SubtreeView::of_nodes(seq![container_node(snode, content)]))
            }
        }
}

/// The walk of a schema node put what came back after `before`.
pub open spec fn node_walked<'a, P: Provider>(
    provider: &'a P,
    snode: SchemaNode,
    list_entry: &P::ListEntry<'a>,
    first: bool,
    filter: GetFilter,
    depth: u32,
    before: SubtreeView<P::Task>,
    after: SubtreeView<P::Task>,
) -> bool {
    exists|answer: Answer<P::ListEntry<'a>, P::Task>| #[trigger]
        node_told(provider, snode, list_entry, filter, depth, answer) && after == before.then_put(
            node_content(snode, first, filter, depth, answer),
        )
}

/// The walk of the children of a node put what came back after `before`.
pub open spec fn children_walked<'a, P: Provider>(
    provider: &'a P,
    snode: SchemaNode,
    list_entry: &P::ListEntry<'a>,
    filter: GetFilter,
    depth: u32,
    before: SubtreeView<P::Task>,
    after: SubtreeView<P::Task>,
) -> bool {
    exists|below: Seq<Answer<P::ListEntry<'a>, P::Task>>| #[trigger]
        children_told(provider, snode, list_entry, filter, depth, below) && after
            == before.then_put(SubtreeView::of_nodes(children_plan(snode, filter, depth, below)))
}

/// The answers behind a walk of the children of a node.
pub proof fn children_answers<'a, P: Provider>(
    provider: &'a P,
    snode: SchemaNode,
    list_entry: &P::ListEntry<'a>,
    filter: GetFilter,
    depth: u32,
    before: SubtreeView<P::Task>,
    after: SubtreeView<P::Task>,
) -> (below: Seq<Answer<P::ListEntry<'a>, P::Task>>)
    requires
        children_walked(provider, snode, list_entry, filter, depth, before, after),
    ensures
        children_told(provider, snode, list_entry, filter, depth, below),
        after == before.then_put(
            SubtreeView::of_nodes(children_plan(snode, filter, depth, below)),
        ),
        after.terms == before.terms,
        after.nodes == before.nodes + children_plan(snode, filter, depth, below),
{
    let below = choose|below: Seq<Answer<P::ListEntry<'a>, P::Task>>| #[trigger]
        children_told(provider, snode, list_entry, filter, depth, below) && after
            == before.then_put(
            SubtreeView::of_nodes(children_plan(snode, filter, depth, below)),
        );
    assert(after.terms =~= before.terms);
    below
}

/// The answer behind a walk of a schema node.
pub proof fn node_answer<'a, P: Provider>(
    provider: &'a P,
    snode: SchemaNode,
    list_entry: &P::ListEntry<'a>,
    first: bool,
    filter: GetFilter,
    depth: u32,
    before: SubtreeView<P::Task>,
    after: SubtreeView<P::Task>,
) -> (answer: Answer<P::ListEntry<'a>, P::Task>)
    requires
        node_walked(provider, snode, list_entry, first, filter, depth, before, after),
    ensures
        node_told(provider, snode, list_entry, filter, depth, answer),
        after == before.then_put(node_content(snode, first, filter, depth, answer)),
{
    choose|answer: Answer<P::ListEntry<'a>, P::Task>| #[trigger]
        node_told(provider, snode, list_entry, filter, depth, answer) && after == before.then_put(
            node_content(snode, first, filter, depth, answer),
        )
}

/// Walks a schema node. What is found goes below `dnode`, which the node
/// describes if it is the `first` one, and which is the parent of its data
/// otherwise.
pub fn iterate_node<'a, P: Provider>(
    provider: &'a P,
    dnode: &mut Subtree<P::Task>,
    snode: &SchemaNode,
    list_entry: &P::ListEntry<'a>,
    first: bool,
    filter: &GetFilter,
    depth: u32,
)
    ensures
        node_walked(
            provider,
            *snode,
            list_entry,
            first,
            *filter,
            depth,
            old(dnode)@,
            final(dnode)@,
        ),
    decreases snode, 2int,
{
    let ghost before = dnode@;
    match snode.kind {
        SchemaNodeKind::List => {
            iterate_list(provider, dnode, snode, list_entry, filter, depth);
            proof {
                let (entries, rows) = choose|
                    entries: Seq<P::ListEntry<'a>>,
                    rows: Seq<Row<P::ListEntry<'a>, P::Task>>,
                | #[trigger]
                    list_told(provider, *snode, list_entry, *filter, depth, entries, rows) && dnode@
                        == before.then_put(
                        SubtreeView::of_nodes(list_plan(*snode, *filter, depth, rows)),
                    );
                let answer = Answer::List { entries, rows };
                assert(node_told(provider, *snode, list_entry, *filter, depth, answer));
            }
        },
        SchemaNodeKind::Container => {
            iterate_container(provider, dnode, snode, list_entry, first, filter, depth);
            proof {
                let (object, below) = choose|
                    object: Option<YangObject>,
                    below: Seq<Answer<P::ListEntry<'a>, P::Task>>,
                | #[trigger]
                    container_told(provider, *snode, list_entry, *filter, depth, object, below)
                        && dnode@ == {
                        let content = container_content(*snode, *filter, depth, object, below);
                        if first {
                            before.then_put(content)
                        } else {
                            before.then_put(
                                SubtreeView::of_nodes(seq![container_node(*snode, content)]),
                            )
                        }
                    };
                let answer = Answer::Container { object, below };
                assert(node_told(provider, *snode, list_entry, *filter, depth, answer));
            }
        },
        SchemaNodeKind::Choice | SchemaNodeKind::Case => {
            iterate_children(provider, dnode, snode, list_entry, filter, depth);
            proof {
                let below = children_answers(
                    provider,
                    *snode,
                    list_entry,
                    *filter,
                    depth,
                    before,
                    dnode@,
                );
                let answer = Answer::Group { below };
                assert(node_told(provider, *snode, list_entry, *filter, depth, answer));
            }
        },
        _ => {
            proof {
                let answer = Answer::<P::ListEntry<'a>, P::Task>::Unasked;
                assert(node_told(provider, *snode, list_entry, *filter, depth, answer));
                assert(before.then_put(node_content(*snode, first, *filter, depth, answer))
                    =~= before);
            }
        },
    }
}

/// Walks the entries of a list.
pub fn iterate_list<'a, P: Provider>(
    provider: &'a P,
    dnode: &mut Subtree<P::Task>,
    snode: &SchemaNode,
    parent_list_entry: &P::ListEntry<'a>,
    filter: &GetFilter,
    depth: u32,
)
    ensures
        list_walked(
            provider,
            *snode,
            parent_list_entry,
            *filter,
            depth,
            old(dnode)@,
            final(dnode)@,
        ),
    decreases snode, 1int,
{
    let ghost before = dnode@;
    let ghost mut entries: Seq<P::ListEntry<'a>> = Seq::empty();
    let ghost mut rows: Seq<Row<P::ListEntry<'a>, P::Task>> = Seq::empty();
    assert(dnode@ =~= before.then_put(
        SubtreeView::of_nodes(list_plan(*snode, *filter, depth, rows)),
    ));
    if let Some(ops) = list_ops::<P>(snode.data_path.as_str()) {
        let list_iter = provider.list_iter(&ops, parent_list_entry);
        let ghost told = list_iter;
        if let Some(start) = list_iter {
            let mut list_iter = start;
            let ghost mut left = choose|count: nat| provider::ends_within(start, count);
            loop
                invariant_except_break
                    provider::drawn(start, entries, list_iter),
                    provider::ends_within(list_iter, left),
                invariant
                    rows.len() == entries.len(),
                    forall|i: int|
                        0 <= i < rows.len() ==> row_told(
                            provider,
                            *snode,
                            ops,
                            &entries[i],
                            *filter,
                            depth,
                            #[trigger] rows[i],
                        ),
                    dnode@ == before.then_put(
                        SubtreeView::of_nodes(list_plan(*snode, *filter, depth, rows)),
                    ),
                ensures
                    provider::drained(start, entries),
                decreases left,
            {
                let ghost at = list_iter;
                let (list_entry, rest) = match list_iter.next() {
                    Some(next) => next,
                    None => {
                        break;
                    },
                };
                let obj = provider.list_new(&ops, &list_entry);

                // Initialize the list entry and walk its child nodes.
                let mut content = Subtree { terms: obj.terms, nodes: Vec::new() };
                let ghost fresh = content@;
                iterate_children(provider, &mut content, snode, &list_entry, filter, depth);
                proof {
                    let below = children_answers(
                        provider,
                        *snode,
                        &list_entry,
                        *filter,
                        depth,
                        fresh,
                        content@,
                    );
                    let row = Row { object: obj, below };
                    assert(content@ =~= SubtreeView {
                        terms: obj.terms@,
                        nodes: children_plan(*snode, *filter, depth, below),
                    });
                    assert(list_plan(*snode, *filter, depth, rows.push(row)) =~= list_plan(
                        *snode,
                        *filter,
                        depth,
                        rows,
                    ).push(row_plan(*snode, *filter, depth, row)));
                    rows = rows.push(row);
                    let earlier = entries;
                    entries = earlier.push(list_entry);
                    provider::lemma_drawn_next(start, earlier, at, list_entry, rest);
                    left = (left - 1) as nat;
                }
                dnode.push(
                    PlanNode::List {
                        module: snode.module.clone(),
                        name: snode.name.clone(),
                        keys: obj.list_keys,
                        content,
                    },
                );
                assert(dnode@ =~= before.then_put(
                    SubtreeView::of_nodes(list_plan(*snode, *filter, depth, rows)),
                ));
                list_iter = rest;
            }
        }
        assert(provider::entries_told(provider, ops, parent_list_entry, entries));
    }
    assert(list_told(provider, *snode, parent_list_entry, *filter, depth, entries, rows));
}

/// Walks a container.
pub fn iterate_container<'a, P: Provider>(
    provider: &'a P,
    dnode: &mut Subtree<P::Task>,
    snode: &SchemaNode,
    list_entry: &P::ListEntry<'a>,
    first: bool,
    filter: &GetFilter,
    depth: u32,
)
    ensures
        container_walked(
            provider,
            *snode,
            list_entry,
            first,
            *filter,
            depth,
            old(dnode)@,
            final(dnode)@,
        ),
    decreases snode, 1int,
{
    let ghost before = dnode@;

    // What there is to report about the container itself.
    let mut object: Option<YangObject> = None;
    if let Some(ops) = container_ops::<P>(snode.data_path.as_str()) {
        object = provider.container_new(&ops, list_entry);
    }
    let ghost told_object = object;
    let mut content: Subtree<P::Task> = Subtree::new();
    if let Some(obj) = object {
        content.terms = obj.terms;
    }
    let ghost fresh = content@;
    iterate_children(provider, &mut content, snode, list_entry, filter, depth);
    let ghost below = children_answers(
        provider,
        *snode,
        list_entry,
        *filter,
        depth,
        fresh,
        content@,
    );
    proof {
        assert(container_told(
            provider,
            *snode,
            list_entry,
            *filter,
            depth,
            told_object,
            below,
        ));
        assert(content@ =~= container_content(*snode, *filter, depth, told_object, below));
    }
    if first {
        dnode.put(content);
    } else {
        // The container stays only if it does not remain empty.
        let kept = !content.is_empty();
        dnode.push(
            PlanNode::Container {
                module: snode.module.clone(),
                name: snode.name.clone(),
                content,
                kept,
            },
        );
        assert(dnode@.nodes =~= before.nodes + seq![
            container_node(*snode, container_content(*snode, *filter, depth, told_object, below)),
        ]);
        assert(dnode@.terms =~= before.terms + Seq::empty());
    }
}

/// Walks the child nodes of a schema node.
pub fn iterate_children<'a, P: Provider>(
    provider: &'a P,
    dnode: &mut Subtree<P::Task>,
    snode: &SchemaNode,
    list_entry: &P::ListEntry<'a>,
    filter: &GetFilter,
    depth: u32,
)
    ensures
        children_walked(
            provider,
            *snode,
            list_entry,
            *filter,
            depth,
            old(dnode)@,
            final(dnode)@,
        ),
    decreases snode, 0int,
{
    let ghost before = dnode@;
    let ghost mut below: Seq<Answer<P::ListEntry<'a>, P::Task>> = Seq::empty();
    assert(dnode@ =~= before.then_put(
        SubtreeView::of_nodes(children_plan(*snode, *filter, depth, below)),
    ));

    // Stop where the depth limit is reached.
    if filter.reached(depth) {
        assert(children_told(provider, *snode, list_entry, *filter, depth, below));
        return;
    }
    let mut i: usize = 0;
    while i < snode.children.len()
        invariant
            i <= snode.children.len(),
            below.len() == i,
            !filter.stops_at(depth),
            forall|j: int|
                0 <= j < below.len() ==> child_told(
                    provider,
                    snode.children@[j],
                    list_entry,
                    *filter,
                    depth,
                    #[trigger] below[j],
                ),
            dnode@ == before.then_put(
                SubtreeView::of_nodes(children_plan(*snode, *filter, depth, below)),
            ),
        decreases snode.children.len() - i,
    {
        let child = &snode.children[i];
        let ghost mid = dnode@;
        let ghost mut answer: Answer<P::ListEntry<'a>, P::Task> = Answer::Unasked;
        if filter.keeps(child) {
            // Check if another task implements the child node.
            let module_name = child.module.as_str();
            let task = list_entry.child_task(module_name);
            assert(task_told(list_entry, child.module@, task));
            match task {
                Some(task) => {
                    proof {
                        answer = Answer::Task(task);
                    }
                    dnode.push(
                        PlanNode::Relay(
                            RelayPoint {
                                task,
                                module: child.module.clone(),
                                name: child.name.clone(),
                                depth,
                            },
                        ),
                    );
                },
                None => {
                    iterate_node(
                        provider,
                        dnode,
                        child,
                        list_entry,
                        false,
                        filter,
                        depth.saturating_add(1),
                    );
                    proof {
                        answer =
                        node_answer(
                            provider,
                            *child,
                            list_entry,
                            false,
                            *filter,
                            deeper(depth),
                            mid,
                            dnode@,
                        );
                    }
                },
            }
        }
        proof {
            assert(child_told(provider, *child, list_entry, *filter, depth, answer));
            let steps = child_plan(*child, *filter, depth, answer);
            assert(dnode@.nodes =~= mid.nodes + steps);
            assert(dnode@ =~= mid.then_put(SubtreeView::of_nodes(steps)));
            before.lemma_then_put(children_plan(*snode, *filter, depth, below), steps);
            lemma_children_plan_push(*snode, *filter, depth, below, answer);
            below = below.push(answer);
        }
        i = i + 1;
    }
    assert(children_told(provider, *snode, list_entry, *filter, depth, below));
}

} // verus!
