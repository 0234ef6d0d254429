//! What a walk puts into the data tree, in terms of the schema, the filter and
//! what the provider said.
use vstd::prelude::*;

use crate::filter::GetFilter;
use crate::lookup_laws;
use crate::plan::{NodeView, Subtree, SubtreeView, YangObject};
use crate::provider;
use crate::provider::{ListEntryKind, ListIterator, Provider, YangContainerOps, YangListOps};
use crate::schema::{SchemaNode, SchemaNodeKind};
use crate::text;
use crate::walk;
use crate::walk::{iterate_children, iterate_container, iterate_list, iterate_node, Answer, Row};

verus! {

/// An exclude entry names the node: by its name alone, or by its module, a
/// colon and its name.
pub open spec fn says(entry: Seq<char>, module: Seq<char>, name: Seq<char>) -> bool {
    ||| !entry.contains(':') && entry == name
    ||| !module.contains(':') && entry == module + seq![':'] + name
}

/// Some exclude entry of the filter names the node.
pub open spec fn listed(filter: GetFilter, module: Seq<char>, name: Seq<char>) -> bool {
    exists|i: int|
        0 <= i < filter.exclude@.len() && says((#[trigger] filter.exclude@[i])@, module, name)
}

proof fn lemma_says(entry: Seq<char>, module: Seq<char>, name: Seq<char>)
    ensures
        crate::filter::entry_names(entry, module, name) <==> says(entry, module, name),
{
    entry.index_of_first_ensures(':');
    if entry.contains(':') {
        let at = entry.index_of_first(':')->0;
        let (head, tail) = text::parts_around(entry, at);
        assert(entry =~= head + seq![':'] + tail);
        assert(!head.contains(':')) by {
            assert forall|i: int| 0 <= i < head.len() implies head[i] != ':' by {
                assert(head[i] == entry[i]);
            }
        }
        if says(entry, module, name) {
            let other = module.len() as int;
            assert(entry[other] == ':');
            if at < other {
                assert(entry[at] == module[at]);
            }
            assert(head =~= module);
            assert(tail =~= name);
        }
    } else if says(entry, module, name) {
        if entry == module + seq![':'] + name {
            assert(entry[module.len() as int] == ':');
        }
    }
}

/// The exclude entries name a node exactly if one of them does, of whatever
/// position.
pub proof fn law_any_entry_excludes(
    filter: &GetFilter,
    module: &String,
    name: &String,
    excluded: bool,
)
    requires
        call_ensures(GetFilter::excludes, (filter, module, name), excluded),
    ensures
        excluded <==> listed(*filter, module@, name@),
{
    lemma_listed(*filter, module@, name@);
}

proof fn lemma_listed(filter: GetFilter, module: Seq<char>, name: Seq<char>)
    ensures
        filter.names(module, name) <==> listed(filter, module, name),
{
    assert forall|i: int| 0 <= i < filter.exclude@.len() implies crate::filter::entry_names(
        (#[trigger] filter.exclude@[i])@,
        module,
        name,
    ) == says(filter.exclude@[i]@, module, name) by {
        lemma_says(filter.exclude@[i]@, module, name);
    }
    if filter.names(module, name) {
        let at = choose|i: int|
            0 <= i < filter.exclude@.len() && crate::filter::entry_names(
                (#[trigger] filter.exclude@[i])@,
                module,
                name,
            );
        assert(says(filter.exclude@[at]@, module, name));
    }
    if listed(filter, module, name) {
        let at = choose|i: int|
            0 <= i < filter.exclude@.len() && says((#[trigger] filter.exclude@[i])@, module, name);
        assert(crate::filter::entry_names(filter.exclude@[at]@, module, name));
    }
}

/// Nothing is walked below a data node at `depth` exactly if there is a limit
/// and it is no larger than the depth.
pub proof fn law_limit_is_reached(filter: &GetFilter, depth: u32, reached: bool)
    requires
        call_ensures(GetFilter::reached, (filter, depth), reached),
    ensures
        reached <==> filter.max_depth != 0 && filter.max_depth <= depth,
{
}

/// Choices and cases only group other nodes. They, lists and containers can
/// have state data below them, and nothing else can.
pub proof fn law_kinds(kind: SchemaNodeKind, wraps: bool, nests: bool)
    requires
        call_ensures(SchemaNodeKind::wraps, (kind,), wraps),
        call_ensures(SchemaNodeKind::nests, (kind,), nests),
    ensures
        wraps <==> kind == SchemaNodeKind::Choice || kind == SchemaNodeKind::Case,
        nests <==> wraps || kind == SchemaNodeKind::List || kind == SchemaNodeKind::Container,
{
}

/// The child is a list or a container that the filter does not list, or a
/// choice or a case.
pub open spec fn looked_at(filter: GetFilter, child: SchemaNode) -> bool {
    match child.kind {
        SchemaNodeKind::List | SchemaNodeKind::Container => !listed(
            filter,
            child.module@,
            child.name@,
        ),
        SchemaNodeKind::Choice | SchemaNodeKind::Case => true,
        _ => false,
    }
}

/// Lists and containers are looked at unless the filter lists them, choices
/// and cases always, and nothing else ever.
pub proof fn law_what_is_looked_at(filter: &GetFilter, child: &SchemaNode, kept: bool)
    requires
        call_ensures(GetFilter::keeps, (filter, child), kept),
    ensures
        kept <==> looked_at(*filter, *child),
{
    lemma_listed(*filter, child.module@, child.name@);
}

/// The list entry says that `task` answers for the child nodes of a module.
pub open spec fn says_task<E: ListEntryKind>(
    list_entry: &E,
    module: Seq<char>,
    task: Option<E::Task>,
) -> bool {
    exists|name: &str|
        name@ == module && #[trigger] call_ensures(E::child_task, (list_entry, name), task)
}

/// `content` is what a walk of the children puts below a data node that has
/// the given leaves and nothing else.
pub open spec fn filled<'a, P: Provider>(
    provider: &'a P,
    snode: SchemaNode,
    list_entry: &P::ListEntry<'a>,
    filter: GetFilter,
    depth: u32,
    object: Option<YangObject>,
    content: SubtreeView<P::Task>,
) -> bool {
    &&& content.terms == match object {
        Some(object) => object.terms@,
        None => Seq::empty(),
    }
    &&& walk::children_walked(
        provider,
        snode,
        list_entry,
        filter,
        depth,
        SubtreeView { terms: content.terms, nodes: Seq::empty() },
        content,
    )
}

/// A walk of a list adds one list entry for each entry that the iterator of
/// the list hands out, in that order: with the name of the list, with the keys
/// and all the leaves of the report on that entry, and filled with what is
/// below that entry. Where the provider does not serve the list, or has no
/// iterator for it, nothing is added. What was there before stays.
pub proof fn law_list_adds_its_entries<'a, P: Provider>(
    provider: &'a P,
    snode: SchemaNode,
    parent: &P::ListEntry<'a>,
    filter: GetFilter,
    depth: u32,
    before: SubtreeView<P::Task>,
    after: SubtreeView<P::Task>,
) -> (told: (
    Option<P::ListIter<'a>>,
    Seq<P::ListIter<'a>>,
    Seq<P::ListEntry<'a>>,
    Seq<YangObject>,
))
    requires
        walk::list_walked(provider, snode, parent, filter, depth, before, after),
    ensures
        ({
            let (iter, states, entries, objects) = told;
            let table = provider::list_table(P::YANG_OPS.list);
            let ops = table[snode.data_path@];
            &&& after.terms == before.terms
            &&& after.nodes.len() == before.nodes.len() + entries.len()
            &&& forall|i: int|
                0 <= i < before.nodes.len() ==> #[trigger] after.nodes[i] == before.nodes[i]
            &&& objects.len() == entries.len()
            &&& if table.contains_key(snode.data_path@) {
                &&& call_ensures(P::list_iter, (provider, &ops, parent), iter)
                &&& match iter {
                    Some(iter) => lookup_laws::hands_out(iter, entries, states) && call_ensures(
                        <P::ListIter<'a> as ListIterator>::next,
                        (states.last(),),
                        None,
                    ),
                    None => entries.len() == 0,
                }
            } else {
                entries.len() == 0
            }
            &&& forall|i: int|
                0 <= i < entries.len() ==> {
                    &&& call_ensures(
                        P::list_new,
                        (provider, &ops, &entries[i]),
                        #[trigger] objects[i],
                    )
                    &&& match after.nodes[before.nodes.len() + i] {
                        NodeView::List { module, name, keys, content } => {
                            &&& module == snode.module@
                            &&& name == snode.name@
                            &&& keys == objects[i].list_keys@
                            &&& content.terms == objects[i].terms@
                            &&& walk::children_walked(
                                provider,
                                snode,
                                &entries[i],
                                filter,
                                depth,
                                SubtreeView { terms: objects[i].terms@, nodes: Seq::empty() },
                                content,
                            )
                        },
                        _ => false,
                    }
                }
        }),
{
    let (entries, rows) = choose|
        entries: Seq<P::ListEntry<'a>>,
        rows: Seq<Row<P::ListEntry<'a>, P::Task>>,
    | #[trigger]
        walk::list_told(provider, snode, parent, filter, depth, entries, rows) && after
            == before.then_put(
            SubtreeView::of_nodes(walk::list_plan(snode, filter, depth, rows)),
        );
    assert(after.terms =~= before.terms);
    let objects = Seq::new(rows.len(), |i: int| rows[i].object);
    let table = provider::list_table(P::YANG_OPS.list);
    let ops = table[snode.data_path@];
    let (iter, states) = if table.contains_key(snode.data_path@) {
        lookup_laws::law_entries_come_from_the_iterator(provider, ops, parent, entries)
    } else {
        (None, Seq::empty())
    };
    assert forall|i: int| 0 <= i < entries.len() implies {
        &&& call_ensures(P::list_new, (provider, &ops, &entries[i]), #[trigger] objects[i])
        &&& match after.nodes[before.nodes.len() + i] {
            NodeView::List { module, name, keys, content } => {
                &&& module == snode.module@
                &&& name == snode.name@
                &&& keys == objects[i].list_keys@
                &&& content.terms == objects[i].terms@
                &&& walk::children_walked(
                    provider,
                    snode,
                    &entries[i],
                    filter,
                    depth,
                    SubtreeView { terms: objects[i].terms@, nodes: Seq::empty() },
                    content,
                )
            },
            _ => false,
        }
    } by {
        assert(walk::row_told(provider, snode, ops, &entries[i], filter, depth, rows[i]));
        assert(after.nodes[before.nodes.len() + i] == walk::row_plan(
            snode,
            filter,
            depth,
            rows[i],
        ));
        lemma_filled(
            provider,
            snode,
            &entries[i],
            filter,
            depth,
            objects[i].terms@,
            rows[i].below,
        );
    }
    (iter, states, entries, objects)
}

proof fn lemma_filled<'a, P: Provider>(
    provider: &'a P,
    snode: SchemaNode,
    list_entry: &P::ListEntry<'a>,
    filter: GetFilter,
    depth: u32,
    terms: Seq<crate::plan::DataTerm>,
    below: Seq<Answer<P::ListEntry<'a>, P::Task>>,
)
    requires
        walk::children_told(provider, snode, list_entry, filter, depth, below),
    ensures
        walk::children_walked(
            provider,
            snode,
            list_entry,
            filter,
            depth,
            SubtreeView { terms, nodes: Seq::empty() },
            SubtreeView { terms, nodes: walk::children_plan(snode, filter, depth, below) },
        ),
{
    let before = SubtreeView::<P::Task> { terms, nodes: Seq::empty() };
    let nodes = walk::children_plan(snode, filter, depth, below);
    assert(before.then_put(SubtreeView::of_nodes(nodes)) =~= SubtreeView { terms, nodes });
}

/// Something is left of the content: a leaf, a list entry, or a container that
/// stays.
pub open spec fn something_left<T>(content: SubtreeView<T>) -> bool {
    ||| content.terms.len() > 0
    ||| exists|i: int|
        0 <= i < content.nodes.len() && match #[trigger] content.nodes[i] {
            NodeView::List { .. } => true,
            NodeView::Container { kept, .. } => kept,
            NodeView::Relay { .. } => false,
        }
}

/// A walk of a container fills it with all the leaves of the report on the
/// container, if the provider serves it and has one, and with what is below it.
/// The first container of a walk is the data node itself. Any other is added
/// with its name, and stays exactly if something is left in it.
pub proof fn law_container_is_filled<'a, P: Provider>(
    provider: &'a P,
    snode: SchemaNode,
    list_entry: &P::ListEntry<'a>,
    first: bool,
    filter: GetFilter,
    depth: u32,
    before: SubtreeView<P::Task>,
    after: SubtreeView<P::Task>,
) -> (told: (Option<YangObject>, SubtreeView<P::Task>))
    requires
        walk::container_walked(provider, snode, list_entry, first, filter, depth, before, after),
    ensures
        ({
            let (object, content) = told;
            let table = provider::container_table(P::YANG_OPS.container);
            &&& if table.contains_key(snode.data_path@) {
                call_ensures(
                    P::container_new,
                    (provider, &table[snode.data_path@], list_entry),
                    object,
                )
            } else {
                object is None
            }
            &&& object matches Some(object) ==> content.terms == object.terms@
            &&& object is None ==> content.terms.len() == 0
            &&& walk::children_walked(
                provider,
                snode,
                list_entry,
                filter,
                depth,
                SubtreeView { terms: content.terms, nodes: Seq::empty() },
                content,
            )
            &&& if first {
                &&& after.terms == before.terms + content.terms
                &&& after.nodes == before.nodes + content.nodes
            } else {
                &&& after.terms == before.terms
                &&& after.nodes.len() == before.nodes.len() + 1
                &&& after.nodes.drop_last() == before.nodes
                &&& match after.nodes.last() {
                    NodeView::Container { module, name, content: put, kept } => {
                        &&& module == snode.module@
                        &&& name == snode.name@
                        &&& put == content
                        &&& kept <==> content.terms.len() > 0 || exists|i: int|
                            0 <= i < content.nodes.len() && match #[trigger] content.nodes[i] {
                                NodeView::List { .. } => true,
                                NodeView::Container { kept, .. } => kept,
                                NodeView::Relay { .. } => false,
                            }
                    },
                    _ => false,
                }
            }
        }),
{
    let (object, below) = choose|
        object: Option<YangObject>,
        below: Seq<Answer<P::ListEntry<'a>, P::Task>>,
    | #[trigger]
        walk::container_told(provider, snode, list_entry, filter, depth, object, below) && after
            == {
            let content = walk::container_content(snode, filter, depth, object, below);
            if first {
                before.then_put(content)
            } else {
                before.then_put(SubtreeView::of_nodes(seq![walk::container_node(snode, content)]))
            }
        };
    let content = walk::container_content(snode, filter, depth, object, below);
    lemma_filled(provider, snode, list_entry, filter, depth, content.terms, below);
    if !first {
        assert(after.terms =~= before.terms);
        assert(after.nodes.drop_last() =~= before.nodes);
        lemma_something_left(content);
    }
    (object, content)
}

proof fn lemma_something_left<T>(content: SubtreeView<T>)
    ensures
        !content.is_empty() <==> something_left(content),
{
    if !content.is_empty() && content.terms.len() == 0 {
        let at = choose|i: int|
            0 <= i < content.nodes.len() && (#[trigger] content.nodes[i]).is_data();
        assert(match content.nodes[at] {
            NodeView::List { .. } => true,
            NodeView::Container { kept, .. } => kept,
            NodeView::Relay { .. } => false,
        });
    }
    if something_left(content) && content.terms.len() == 0 {
        let at = choose|i: int|
            0 <= i < content.nodes.len() && match #[trigger] content.nodes[i] {
                NodeView::List { .. } => true,
                NodeView::Container { kept, .. } => kept,
                NodeView::Relay { .. } => false,
            };
        assert(content.nodes[at].is_data());
    }
}

/// Content is empty exactly if nothing is left of it.
pub proof fn law_empty_content<T>(content: &Subtree<T>, empty: bool)
    requires
        call_ensures(Subtree::<T>::is_empty, (content,), empty),
    ensures
        empty <==> !something_left(content@),
{
    lemma_something_left(content@);
}

/// `piece` is what one child of a schema node adds: nothing if it is not looked
/// at; one question to the task that the list entry has for its module; and
/// otherwise what the walk of the child adds, one level further down.
pub open spec fn piece_of<'a, P: Provider>(
    provider: &'a P,
    child: SchemaNode,
    list_entry: &P::ListEntry<'a>,
    filter: GetFilter,
    depth: u32,
    piece: Seq<NodeView<P::Task>>,
) -> bool {
    if !looked_at(filter, child) {
        piece.len() == 0
    } else {
        ||| {
            &&& piece.len() == 1
            &&& match piece[0] {
                NodeView::Relay { task, module, name, depth: asked_at } => {
                    &&& says_task(list_entry, child.module@, Some(task))
                    &&& module == child.module@
                    &&& name == child.name@
                    &&& asked_at == depth
                },
                _ => false,
            }
        }
        ||| {
            &&& says_task(list_entry, child.module@, None)
            &&& exists|lower: u32|
                (lower == depth + 1 || lower == u32::MAX && depth == u32::MAX)
                    && #[trigger] walk::node_walked(
                    provider,
                    child,
                    list_entry,
                    false,
                    filter,
                    lower,
                    SubtreeView { terms: Seq::empty(), nodes: Seq::empty() },
                    SubtreeView { terms: Seq::empty(), nodes: piece },
                )
        }
    }
}

/// A walk of the children of a schema node adds nothing where the limit is
/// reached. Elsewhere it adds one piece for each child, in schema order. What
/// was there before stays, and no leaves are added.
pub proof fn law_children_add_their_pieces<'a, P: Provider>(
    provider: &'a P,
    snode: SchemaNode,
    list_entry: &P::ListEntry<'a>,
    filter: GetFilter,
    depth: u32,
    before: SubtreeView<P::Task>,
    after: SubtreeView<P::Task>,
) -> (pieces: Seq<Seq<NodeView<P::Task>>>)
    requires
        walk::children_walked(provider, snode, list_entry, filter, depth, before, after),
    ensures
        after.terms == before.terms,
        after.nodes == before.nodes + pieces.flatten(),
        pieces.len() == if filter.max_depth != 0 && filter.max_depth <= depth {
            0
        } else {
            snode.children@.len()
        },
        forall|i: int|
            0 <= i < pieces.len() ==> piece_of(
                provider,
                snode.children@[i],
                list_entry,
                filter,
                depth,
                #[trigger] pieces[i],
            ),
{
    let below = walk::children_answers(
        provider,
        snode,
        list_entry,
        filter,
        depth,
        before,
        after,
    );
    lemma_pieces(provider, snode, list_entry, filter, depth, below, below.len() as int)
}

proof fn lemma_pieces<'a, P: Provider>(
    provider: &'a P,
    snode: SchemaNode,
    list_entry: &P::ListEntry<'a>,
    filter: GetFilter,
    depth: u32,
    below: Seq<Answer<P::ListEntry<'a>, P::Task>>,
    upto: int,
) -> (pieces: Seq<Seq<NodeView<P::Task>>>)
    requires
        walk::children_told(provider, snode, list_entry, filter, depth, below),
        0 <= upto <= below.len(),
    ensures
        pieces.len() == upto,
        walk::children_plan(snode, filter, depth, below.take(upto)) == pieces.flatten(),
        upto == below.len() ==> walk::children_plan(snode, filter, depth, below)
            == pieces.flatten(),
        forall|i: int|
            0 <= i < pieces.len() ==> piece_of(
                provider,
                snode.children@[i],
                list_entry,
                filter,
                depth,
                #[trigger] pieces[i],
            ),
    decreases upto,
{
    assert(below.take(below.len() as int) =~= below);
    if upto == 0 {
        let none = Seq::<Seq<NodeView<P::Task>>>::empty();
        assert(walk::children_plan(snode, filter, depth, below.take(0)) =~= none.flatten());
        none
    } else {
        let at = upto - 1;
        let child = snode.children@[at];
        let earlier = lemma_pieces(provider, snode, list_entry, filter, depth, below, at);
        let piece = walk::child_plan(child, filter, depth, below[at]);
        assert(walk::child_told(provider, child, list_entry, filter, depth, below[at]));
        lemma_piece(provider, child, list_entry, filter, depth, below[at]);
        walk::lemma_children_plan_push(snode, filter, depth, below.take(at), below[at]);
        assert(below.take(upto) =~= below.take(at).push(below[at]));
        earlier.lemma_flatten_push(piece);
        earlier.push(piece)
    }
}

proof fn lemma_piece<'a, P: Provider>(
    provider: &'a P,
    child: SchemaNode,
    list_entry: &P::ListEntry<'a>,
    filter: GetFilter,
    depth: u32,
    answer: Answer<P::ListEntry<'a>, P::Task>,
)
    requires
        walk::child_told(provider, child, list_entry, filter, depth, answer),
    ensures
        piece_of(
            provider,
            child,
            list_entry,
            filter,
            depth,
            walk::child_plan(child, filter, depth, answer),
        ),
{
    lemma_listed(filter, child.module@, child.name@);
    let piece = walk::child_plan(child, filter, depth, answer);
    if looked_at(filter, child) {
        match answer {
            Answer::Task(task) => {
                assert(says_task(list_entry, child.module@, Some(task)));
            },
            _ => {
                assert(walk::task_told(list_entry, child.module@, None));
                assert(says_task(list_entry, child.module@, None));
                let lower = walk::deeper(depth);
                let empty = SubtreeView::<P::Task> { terms: Seq::empty(), nodes: Seq::empty() };
                let after = SubtreeView { terms: Seq::empty(), nodes: piece };
                assert(walk::node_told(provider, child, list_entry, filter, lower, answer));
                assert(empty.then_put(walk::node_content(child, false, filter, lower, answer))
                    =~= after);
                assert(walk::node_walked(
                    provider,
                    child,
                    list_entry,
                    false,
                    filter,
                    lower,
                    empty,
                    after,
                ));
            },
        }
    }
}

/// A walk of a schema node is that of a list, of a container, or, for a choice
/// or a case, of its children as if they stood in its place. No other kind of
/// node adds anything.
pub proof fn law_node_goes_by_its_kind<'a, P: Provider>(
    provider: &'a P,
    snode: SchemaNode,
    list_entry: &P::ListEntry<'a>,
    first: bool,
    filter: GetFilter,
    depth: u32,
    before: SubtreeView<P::Task>,
    after: SubtreeView<P::Task>,
)
    requires
        walk::node_walked(provider, snode, list_entry, first, filter, depth, before, after),
    ensures
        match snode.kind {
            SchemaNodeKind::List => walk::list_walked(
                provider,
                snode,
                list_entry,
                filter,
                depth,
                before,
                after,
            ),
            SchemaNodeKind::Container => walk::container_walked(
                provider,
                snode,
                list_entry,
                first,
                filter,
                depth,
                before,
                after,
            ),
            SchemaNodeKind::Choice | SchemaNodeKind::Case => walk::children_walked(
                provider,
                snode,
                list_entry,
                filter,
                depth,
                before,
                after,
            ),
            _ => after == before,
        },
{
    let answer = walk::node_answer(
        provider,
        snode,
        list_entry,
        first,
        filter,
        depth,
        before,
        after,
    );
    match answer {
        Answer::List { entries, rows } => {
            assert(walk::list_told(provider, snode, list_entry, filter, depth, entries, rows));
        },
        Answer::Container { object, below } => {
            assert(walk::container_told(
                provider,
                snode,
                list_entry,
                filter,
                depth,
                object,
                below,
            ));
        },
        Answer::Group { below } => {
            assert(walk::children_told(provider, snode, list_entry, filter, depth, below));
        },
        _ => {
            assert(after =~= before);
        },
    }
}

/// Each of the functions that walk puts what the walk of that name puts, after
/// what is there.
pub proof fn law_walks_put_after_what_is_there<'a, P: Provider>(
    provider: &'a P,
    snode: &SchemaNode,
    list_entry: &P::ListEntry<'a>,
    first: bool,
    filter: &GetFilter,
    depth: u32,
)
    ensures
        forall|dnode: &mut Subtree<P::Task>| #[trigger]
            call_ensures(
                iterate_node::<P>,
                (provider, dnode, snode, list_entry, first, filter, depth),
                (),
            ) ==> walk::node_walked(
                provider,
                *snode,
                list_entry,
                first,
                *filter,
                depth,
                dnode@,
                (*final(dnode))@,
            ),
        forall|dnode: &mut Subtree<P::Task>| #[trigger]
            call_ensures(
                iterate_list::<P>,
                (provider, dnode, snode, list_entry, filter, depth),
                (),
            ) ==> walk::list_walked(
                provider,
                *snode,
                list_entry,
                *filter,
                depth,
                dnode@,
                (*final(dnode))@,
            ),
        forall|dnode: &mut Subtree<P::Task>| #[trigger]
            call_ensures(
                iterate_container::<P>,
                (provider, dnode, snode, list_entry, first, filter, depth),
                (),
            ) ==> walk::container_walked(
                provider,
                *snode,
                list_entry,
                first,
                *filter,
                depth,
                dnode@,
                (*final(dnode))@,
            ),
        forall|dnode: &mut Subtree<P::Task>| #[trigger]
            call_ensures(
                iterate_children::<P>,
                (provider, dnode, snode, list_entry, filter, depth),
                (),
            ) ==> walk::children_walked(
                provider,
                *snode,
                list_entry,
                *filter,
                depth,
                dnode@,
                (*final(dnode))@,
            ),
{
}

/// What a step puts, at any level, was said by the provider: a list entry has
/// the keys and exactly the leaves of a report on an entry, a container has
/// none or exactly the leaves of a report on it, and a task that is asked is
/// one that a list entry has for the module of the node.
pub open spec fn step_said<'a, P: Provider>(provider: &'a P, step: NodeView<P::Task>) -> bool
    decreases step,
{
    match step {
        NodeView::List { keys, content, .. } => {
            &&& exists|ops: YangListOps, entry: P::ListEntry<'a>, object: YangObject|
                {
                    &&& #[trigger] call_ensures(P::list_new, (provider, &ops, &entry), object)
                    &&& keys == object.list_keys@
                    &&& content.terms == object.terms@
                }
            &&& all_said(provider, content.nodes)
        },
        NodeView::Container { content, .. } => {
            &&& content.terms.len() == 0 || exists|
                ops: YangContainerOps,
                entry: P::ListEntry<'a>,
                object: YangObject,
            |
                {
                    &&& #[trigger] call_ensures(
                        P::container_new,
                        (provider, &ops, &entry),
                        Some(object),
                    )
                    &&& content.terms == object.terms@
                }
            &&& all_said(provider, content.nodes)
        },
        NodeView::Relay { task, module, .. } => exists|entry: P::ListEntry<'a>, name: &str|
            name@ == module && #[trigger] call_ensures(
                <P::ListEntry<'a> as ListEntryKind>::child_task,
                (&entry, name),
                Some(task),
            ),
    }
}

/// What the steps put, at any level, was said by the provider.
pub open spec fn all_said<'a, P: Provider>(provider: &'a P, nodes: Seq<NodeView<P::Task>>) -> bool
    decreases nodes,
{
    forall|i: int| 0 <= i < nodes.len() ==> step_said(provider, #[trigger] nodes[i])
}

proof fn lemma_node_said<'a, P: Provider>(
    provider: &'a P,
    snode: SchemaNode,
    entry: P::ListEntry<'a>,
    filter: GetFilter,
    depth: u32,
    answer: Answer<P::ListEntry<'a>, P::Task>,
)
    requires
        walk::node_told(provider, snode, &entry, filter, depth, answer),
    ensures
        all_said(provider, walk::node_plan(snode, filter, depth, answer)),
    decreases snode, 2int, 0int,
{
    let nodes = walk::node_plan(snode, filter, depth, answer);
    match answer {
        Answer::List { entries, rows } => {
            if let Some(ops) = provider::list_ops_at::<P>(snode.data_path@) {
                assert forall|i: int| 0 <= i < nodes.len() implies step_said(
                    provider,
                    #[trigger] nodes[i],
                ) by {
                    assert(walk::row_told(
                        provider,
                        snode,
                        ops,
                        &entries[i],
                        filter,
                        depth,
                        rows[i],
                    ));
                    assert(call_ensures(
                        P::list_new,
                        (provider, &ops, &entries[i]),
                        rows[i].object,
                    ));
                    let below = rows[i].below;
                    lemma_children_said(
                        provider,
                        snode,
                        entries[i],
                        filter,
                        depth,
                        below,
                        below.len() as int,
                    );
                    assert(below.take(below.len() as int) =~= below);
                }
            }
        },
        Answer::Container { object, below } => {
            lemma_children_said(provider, snode, entry, filter, depth, below, below.len() as int);
            assert(below.take(below.len() as int) =~= below);
            if let Some(object) = object {
                let ops = provider::container_ops_at::<P>(snode.data_path@)->0;
                assert(call_ensures(P::container_new, (provider, &ops, &entry), Some(object)));
            }
            assert(step_said(provider, nodes[0]));
        },
        Answer::Group { below } => {
            lemma_children_said(provider, snode, entry, filter, depth, below, below.len() as int);
            assert(below.take(below.len() as int) =~= below);
        },
        _ => {},
    }
}

proof fn lemma_children_said<'a, P: Provider>(
    provider: &'a P,
    snode: SchemaNode,
    entry: P::ListEntry<'a>,
    filter: GetFilter,
    depth: u32,
    below: Seq<Answer<P::ListEntry<'a>, P::Task>>,
    upto: int,
)
    requires
        walk::children_told(provider, snode, &entry, filter, depth, below),
        0 <= upto <= below.len(),
    ensures
        all_said(provider, walk::children_plan(snode, filter, depth, below.take(upto))),
    decreases snode, 1int, upto,
{
    if upto > 0 {
        let at = upto - 1;
        let child = snode.children@[at];
        lemma_children_said(provider, snode, entry, filter, depth, below, at);
        assert(walk::child_told(provider, child, &entry, filter, depth, below[at]));
        let steps = walk::child_plan(child, filter, depth, below[at]);
        if filter.visits(child) {
            match below[at] {
                Answer::Task(task) => {
                    assert(walk::task_told(&entry, child.module@, Some(task)));
                    let step = NodeView::Relay {
                        task,
                        module: child.module@,
                        name: child.name@,
                        depth,
                    };
                    assert(steps =~= seq![step]);
                    assert(exists|entry: P::ListEntry<'a>, name: &str|
                        name@ == child.module@ && #[trigger] call_ensures(
                            <P::ListEntry<'a> as ListEntryKind>::child_task,
                            (&entry, name),
                            Some(task),
                        ));
                    assert(step->Relay_task == task && step->Relay_module == child.module@);
                    assert(step_said(provider, step));
                },
                _ => {
                    lemma_node_said(
                        provider,
                        child,
                        entry,
                        filter,
                        walk::deeper(depth),
                        below[at],
                    );
                },
            }
        }
        assert(all_said(provider, steps));
        walk::lemma_children_plan_push(snode, filter, depth, below.take(at), below[at]);
        assert(below.take(upto) =~= below.take(at).push(below[at]));
    }
}

/// Everything that a walk of the children of a node puts, at any level, was
/// said by the provider.
pub proof fn law_everything_put_was_said<'a, P: Provider>(
    provider: &'a P,
    snode: SchemaNode,
    entry: P::ListEntry<'a>,
    filter: GetFilter,
    depth: u32,
    before: SubtreeView<P::Task>,
    after: SubtreeView<P::Task>,
)
    requires
        all_said(provider, before.nodes),
        walk::children_walked(provider, snode, &entry, filter, depth, before, after),
    ensures
        all_said(provider, after.nodes),
{
    let below = walk::children_answers(provider, snode, &entry, filter, depth, before, after);
    lemma_children_said(provider, snode, entry, filter, depth, below, below.len() as int);
    assert(below.take(below.len() as int) =~= below);
}

} // verus!
