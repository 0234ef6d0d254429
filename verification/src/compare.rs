//! How the data of two requests compare.
//!
//! Two requests can only be compared if the provider answers both alike, as
//! one does whose state is the same for both.
use vstd::prelude::*;

use crate::context::Target;
use crate::data;
use crate::filter;
use crate::filter::GetFilter;
use crate::get;
use crate::get::{Error, GetPlan};
use crate::laws;
use crate::lookup;
use crate::lookup::PathNode;
use crate::plan::{DataTerm, NodeView, Subtree, SubtreeView, YangObject};
use crate::provider;
use crate::provider::{ListIterator, Provider, YangContainerOps, YangListOps};
use crate::schema::{SchemaNode, SchemaNodeKind};
use crate::walk;
use crate::walk::{Answer, Row};

verus! {

/// Two reports on a list entry say the same.
pub open spec fn same_report(one: YangObject, other: YangObject) -> bool {
    one.list_keys@ == other.list_keys@ && one.terms@ == other.terms@
}

/// The provider answers the same question alike each time it is asked, as it
/// does as long as its state does not change.
pub open spec fn steady<'a, P: Provider>(provider: &'a P) -> bool {
    &&& forall|
        ops: YangListOps,
        entry: P::ListEntry<'a>,
        one: Option<P::ListIter<'a>>,
        other: Option<P::ListIter<'a>>,
    | #[trigger]
        call_ensures(P::list_iter, (provider, &ops, &entry), one) && #[trigger] call_ensures(
            P::list_iter,
            (provider, &ops, &entry),
            other,
        ) ==> one == other
    &&& steady_iter::<P::ListIter<'a>>()
    &&& forall|ops: YangListOps, entry: P::ListEntry<'a>, one: YangObject, other: YangObject|
     #[trigger]
        call_ensures(P::list_new, (provider, &ops, &entry), one) && #[trigger] call_ensures(
            P::list_new,
            (provider, &ops, &entry),
            other,
        ) ==> same_report(one, other)
    &&& forall|
        ops: YangContainerOps,
        entry: P::ListEntry<'a>,
        one: Option<YangObject>,
        other: Option<YangObject>,
    | #[trigger]
        call_ensures(P::container_new, (provider, &ops, &entry), one) && #[trigger] call_ensures(
            P::container_new,
            (provider, &ops, &entry),
            other,
        ) ==> walk::object_terms(one) == walk::object_terms(other)
    &&& forall|
        entry: P::ListEntry<'a>,
        module: Seq<char>,
        one: Option<P::Task>,
        other: Option<P::Task>,
    | #[trigger]
        walk::task_told(&entry, module, one) && #[trigger] walk::task_told(&entry, module, other)
            ==> (one is Some <==> other is Some)
    &&& forall|one: P::ListEntry<'a>, other: P::ListEntry<'a>| #[trigger]
        lookup::default_told::<P>(one) && #[trigger] lookup::default_told::<P>(other) ==> one
            == other
}

/// An iterator hands out the same entry each time it is asked.
pub open spec fn steady_iter<I: ListIterator>() -> bool {
    forall|iter: I, one: Option<(I::Entry, I)>, other: Option<(I::Entry, I)>| #[trigger]
        call_ensures(I::next, (iter,), one) && #[trigger] call_ensures(I::next, (iter,), other)
            ==> one == other
}

proof fn lemma_drawn_alike<I: ListIterator>(
    iter: I,
    fewer: Seq<I::Entry>,
    fewer_rest: I,
    more: Seq<I::Entry>,
    more_rest: I,
)
    requires
        steady_iter::<I>(),
        provider::drawn(iter, fewer, fewer_rest),
        provider::drawn(iter, more, more_rest),
        fewer.len() <= more.len(),
    ensures
        fewer == more.take(fewer.len() as int),
        fewer.len() == more.len() ==> fewer_rest == more_rest,
        fewer.len() < more.len() ==> exists|next: (I::Entry, I)| #[trigger]
            call_ensures(I::next, (fewer_rest,), Some(next)),
    decreases more.len(),
{
    if more.len() > 0 {
        let before = choose|before: I|
            provider::drawn(iter, more.drop_last(), before) && #[trigger] call_ensures(
                I::next,
                (before,),
                Some((more.last(), more_rest)),
            );
        if fewer.len() < more.len() {
            lemma_drawn_alike(iter, fewer, fewer_rest, more.drop_last(), before);
            assert(more.drop_last().take(fewer.len() as int) =~= more.take(fewer.len() as int));
        } else {
            let fewer_before = choose|before: I|
                provider::drawn(iter, fewer.drop_last(), before) && #[trigger] call_ensures(
                    I::next,
                    (before,),
                    Some((fewer.last(), fewer_rest)),
                );
            lemma_drawn_alike(iter, fewer.drop_last(), fewer_before, more.drop_last(), before);
            assert(fewer.drop_last() == more.drop_last()) by {
                assert(more.drop_last().take(fewer.len() - 1) =~= more.drop_last());
            }
            assert(fewer =~= fewer.drop_last().push(fewer.last()));
            assert(more =~= more.drop_last().push(more.last()));
            assert(more.take(fewer.len() as int) =~= more);
        }
    } else {
        assert(fewer =~= more.take(0));
    }
}

proof fn lemma_drained_is_longest<I: ListIterator>(
    iter: I,
    some: Seq<I::Entry>,
    rest: I,
    all: Seq<I::Entry>,
)
    requires
        steady_iter::<I>(),
        provider::drawn(iter, some, rest),
        provider::drained(iter, all),
    ensures
        some.len() <= all.len(),
        some == all.take(some.len() as int),
{
    let end = choose|end: I| #[trigger]
        provider::drawn(iter, all, end) && call_ensures(I::next, (end,), None);
    if some.len() > all.len() {
        lemma_drawn_alike(iter, all, end, some, rest);
    } else {
        lemma_drawn_alike(iter, some, rest, all, end);
    }
}

proof fn lemma_entries_alike<'a, P: Provider>(
    provider: &'a P,
    ops: YangListOps,
    entry: P::ListEntry<'a>,
    one: Seq<P::ListEntry<'a>>,
    other: Seq<P::ListEntry<'a>>,
)
    requires
        steady(provider),
        provider::entries_told(provider, ops, &entry, one),
        provider::entries_told(provider, ops, &entry, other),
    ensures
        one == other,
{
    let one_iter = choose|iter: Option<P::ListIter<'a>>| #[trigger]
        call_ensures(P::list_iter, (provider, &ops, &entry), iter) && match iter {
            Some(iter) => provider::drained(iter, one),
            None => one.len() == 0,
        };
    let other_iter = choose|iter: Option<P::ListIter<'a>>| #[trigger]
        call_ensures(P::list_iter, (provider, &ops, &entry), iter) && match iter {
            Some(iter) => provider::drained(iter, other),
            None => other.len() == 0,
        };
    assert(one_iter == other_iter);
    if let Some(iter) = one_iter {
        let one_end = choose|end: P::ListIter<'a>| #[trigger] provider::drawn(iter, one, end);
        let other_end = choose|end: P::ListIter<'a>| #[trigger] provider::drawn(iter, other, end);
        lemma_drained_is_longest(iter, one, one_end, other);
        lemma_drained_is_longest(iter, other, other_end, one);
        assert(one.take(one.len() as int) =~= one);
    } else {
        assert(one =~= other);
    }
}

/// An entry that a search found is the one that every search finds.
proof fn lemma_found_alike<'a, P: Provider>(
    provider: &'a P,
    ops: YangListOps,
    parent: P::ListEntry<'a>,
    keys: Seq<char>,
    entries: Seq<P::ListEntry<'a>>,
    objects: Seq<YangObject>,
    found: P::ListEntry<'a>,
    other_entries: Seq<P::ListEntry<'a>>,
    other_objects: Seq<YangObject>,
    other: Option<P::ListEntry<'a>>,
)
    requires
        steady(provider),
        lookup::search_told(provider, ops, parent, keys, entries, objects, Some(found)),
        lookup::search_told(provider, ops, parent, keys, other_entries, other_objects, other),
        other is Some ==> entries.len() <= other_entries.len(),
    ensures
        other == Some(found),
{
    let (iter, rest) = choose|iter: P::ListIter<'a>, rest: P::ListIter<'a>|
        call_ensures(P::list_iter, (provider, &ops, &parent), Some(iter))
            && #[trigger] provider::drawn(iter, entries, rest);
    match other {
        Some(_) => {
            let (other_iter, other_rest) = choose|
                other_iter: P::ListIter<'a>,
                other_rest: P::ListIter<'a>,
            |
                call_ensures(P::list_iter, (provider, &ops, &parent), Some(other_iter))
                    && #[trigger] provider::drawn(other_iter, other_entries, other_rest);
            assert(Some(iter) == Some(other_iter));
            lemma_drawn_alike(iter, entries, rest, other_entries, other_rest);
        },
        None => {
            let told = choose|told: Option<P::ListIter<'a>>| #[trigger]
                call_ensures(P::list_iter, (provider, &ops, &parent), told) && match told {
                    Some(iter) => provider::drained(iter, other_entries),
                    None => other_entries.len() == 0,
                };
            assert(told == Some(iter));
            lemma_drained_is_longest(iter, entries, rest, other_entries);
        },
    }
    let at = entries.len() - 1;
    assert(other_entries[at] == entries[at]);
    assert(call_ensures(P::list_new, (provider, &ops, &entries[at]), objects[at]));
    assert(call_ensures(P::list_new, (provider, &ops, &entries[at]), other_objects[at]));
    assert(same_report(objects[at], other_objects[at]));
    assert(other_objects[at].list_keys@ == keys);
}

proof fn lemma_step_alike<'a, P: Provider>(
    provider: &'a P,
    node: PathNode,
    entry: P::ListEntry<'a>,
    one: Option<P::ListEntry<'a>>,
    other: Option<P::ListEntry<'a>>,
)
    requires
        steady(provider),
        lookup::step_told(provider, node, entry, one),
        lookup::step_told(provider, node, entry, other),
    ensures
        one == other,
{
    if node.kind == SchemaNodeKind::List {
        if let Some(ops) = provider::list_ops_at::<P>(node.data_path@) {
            let keys = lookup::keys_text(node.list_keys@);
            let (one_entries, one_objects) = choose|
                entries: Seq<P::ListEntry<'a>>,
                objects: Seq<YangObject>,
            | #[trigger]
                lookup::search_told(provider, ops, entry, keys, entries, objects, one);
            let (other_entries, other_objects) = choose|
                entries: Seq<P::ListEntry<'a>>,
                objects: Seq<YangObject>,
            | #[trigger]
                lookup::search_told(provider, ops, entry, keys, entries, objects, other);
            if one is Some && (other is None || one_entries.len() <= other_entries.len()) {
                lemma_found_alike(
                    provider,
                    ops,
                    entry,
                    keys,
                    one_entries,
                    one_objects,
                    one->0,
                    other_entries,
                    other_objects,
                    other,
                );
            } else if other is Some {
                lemma_found_alike(
                    provider,
                    ops,
                    entry,
                    keys,
                    other_entries,
                    other_objects,
                    other->0,
                    one_entries,
                    one_objects,
                    one,
                );
            }
        }
    }
}

proof fn lemma_entry_alike<'a, P: Provider>(
    provider: &'a P,
    nodes: Seq<PathNode>,
    entry: P::ListEntry<'a>,
    one: P::ListEntry<'a>,
    other: P::ListEntry<'a>,
)
    requires
        steady(provider),
        lookup::entry_told(provider, nodes, entry, one),
        lookup::entry_told(provider, nodes, entry, other),
    ensures
        one == other,
    decreases nodes.len(),
{
    if nodes.len() > 0 {
        let one_next = choose|next: Option<P::ListEntry<'a>>| #[trigger]
            lookup::step_told(provider, nodes.last(), entry, next) && match next {
                Some(next) => lookup::entry_told(provider, nodes.drop_last(), next, one),
                None => lookup::default_told::<P>(one),
            };
        let other_next = choose|next: Option<P::ListEntry<'a>>| #[trigger]
            lookup::step_told(provider, nodes.last(), entry, next) && match next {
                Some(next) => lookup::entry_told(provider, nodes.drop_last(), next, other),
                None => lookup::default_told::<P>(other),
            };
        lemma_step_alike(provider, nodes.last(), entry, one_next, other_next);
        if let Some(next) = one_next {
            lemma_entry_alike(provider, nodes.drop_last(), next, one, other);
        }
    }
}

/// As long as a provider answers alike, a data node belongs to the same list
/// entry each time it is looked up.
pub proof fn law_lookup_is_steady<'a, P: Provider>(
    provider: &'a P,
    inclusive_ancestors: Seq<PathNode>,
    one: P::ListEntry<'a>,
    other: P::ListEntry<'a>,
)
    requires
        steady(provider),
        lookup::lookup_told(provider, inclusive_ancestors, one),
        lookup::lookup_told(provider, inclusive_ancestors, other),
    ensures
        one == other,
{
    let one_start = choose|start: P::ListEntry<'a>| #[trigger]
        lookup::default_told::<P>(start) && lookup::entry_told(
            provider,
            inclusive_ancestors,
            start,
            one,
        );
    let other_start = choose|start: P::ListEntry<'a>| #[trigger]
        lookup::default_told::<P>(start) && lookup::entry_told(
            provider,
            inclusive_ancestors,
            start,
            other,
        );
    assert(one_start == other_start);
    lemma_entry_alike(provider, inclusive_ancestors, one_start, one, other);
}

/// `other` walks at least as deep as `filter`; zero stands for no limit.
pub open spec fn no_deeper(filter: GetFilter, other: GetFilter) -> bool {
    other.max_depth == 0 || 0 < filter.max_depth <= other.max_depth
}

/// Whatever `filter` looks at below `snode`, at any level, `other` looks at.
pub open spec fn no_wider(filter: GetFilter, other: GetFilter, snode: SchemaNode) -> bool
    decreases snode,
{
    forall|i: int|
        0 <= i < snode.children@.len() ==> {
            &&& filter.visits(#[trigger] snode.children@[i]) ==> other.visits(snode.children@[i])
            &&& no_wider(filter, other, snode.children@[i])
        }
}

proof fn lemma_row_part<'a, P: Provider>(
    provider: &'a P,
    snode: SchemaNode,
    ops: YangListOps,
    entry: P::ListEntry<'a>,
    filter: GetFilter,
    other: GetFilter,
    depth: u32,
    row: Row<P::ListEntry<'a>, P::Task>,
    other_row: Row<P::ListEntry<'a>, P::Task>,
)
    requires
        steady(provider),
        no_deeper(filter, other),
        no_wider(filter, other, snode),
        walk::row_told(provider, snode, ops, &entry, filter, depth, row),
        walk::row_told(provider, snode, ops, &entry, other, depth, other_row),
    ensures
        data::embeds(
            data::data_left(seq![walk::row_plan(snode, filter, depth, row)]),
            data::data_left(seq![walk::row_plan(snode, other, depth, other_row)]),
        ),
    decreases snode, 2int, 0int,
{
    lemma_children_part(provider, snode, entry, filter, other, depth, row.below, other_row.below);
    assert(same_report(row.object, other_row.object));
    data::lemma_data_left_one(walk::row_plan(snode, filter, depth, row));
    data::lemma_data_left_one(walk::row_plan(snode, other, depth, other_row));
    data::lemma_embeds_one(
        data::data_left(seq![walk::row_plan(snode, filter, depth, row)])[0],
        data::data_left(seq![walk::row_plan(snode, other, depth, other_row)])[0],
    );
}

/// The first `upto` entries of a list.
proof fn lemma_rows_part<'a, P: Provider>(
    provider: &'a P,
    snode: SchemaNode,
    ops: YangListOps,
    entries: Seq<P::ListEntry<'a>>,
    filter: GetFilter,
    other: GetFilter,
    depth: u32,
    rows: Seq<Row<P::ListEntry<'a>, P::Task>>,
    other_rows: Seq<Row<P::ListEntry<'a>, P::Task>>,
    upto: int,
)
    requires
        steady(provider),
        no_deeper(filter, other),
        no_wider(filter, other, snode),
        rows.len() == entries.len(),
        other_rows.len() == entries.len(),
        forall|i: int|
            0 <= i < rows.len() ==> walk::row_told(
                provider,
                snode,
                ops,
                &entries[i],
                filter,
                depth,
                #[trigger] rows[i],
            ),
        forall|i: int|
            0 <= i < other_rows.len() ==> walk::row_told(
                provider,
                snode,
                ops,
                &entries[i],
                other,
                depth,
                #[trigger] other_rows[i],
            ),
        0 <= upto <= entries.len(),
    ensures
        data::embeds(
            data::data_left(walk::list_plan(snode, filter, depth, rows.take(upto))),
            data::data_left(walk::list_plan(snode, other, depth, other_rows.take(upto))),
        ),
    decreases snode, 3int, upto,
{
    let steps = walk::list_plan(snode, filter, depth, rows.take(upto));
    let other_steps = walk::list_plan(snode, other, depth, other_rows.take(upto));
    if upto > 0 {
        let at = upto - 1;
        lemma_rows_part(
            provider,
            snode,
            ops,
            entries,
            filter,
            other,
            depth,
            rows,
            other_rows,
            at,
        );
        lemma_row_part(
            provider,
            snode,
            ops,
            entries[at],
            filter,
            other,
            depth,
            rows[at],
            other_rows[at],
        );
        let init = walk::list_plan(snode, filter, depth, rows.take(at));
        let other_init = walk::list_plan(snode, other, depth, other_rows.take(at));
        let last = seq![walk::row_plan(snode, filter, depth, rows[at])];
        let other_last = seq![walk::row_plan(snode, other, depth, other_rows[at])];
        assert(steps =~= init + last);
        assert(other_steps =~= other_init + other_last);
        data::lemma_steps_part(init, other_init, last, other_last);
    } else {
        assert(steps =~= Seq::empty());
    }
}

/// A container of which something is left stays in a larger plan too.
proof fn lemma_container_part<T>(
    snode: SchemaNode,
    content: SubtreeView<T>,
    other_content: SubtreeView<T>,
)
    requires
        data::content_part_of(content, other_content),
    ensures
        data::embeds(
            data::data_left(seq![walk::container_node(snode, content)]),
            data::data_left(seq![walk::container_node(snode, other_content)]),
        ),
{
    let step = walk::container_node(snode, content);
    let other_step = walk::container_node(snode, other_content);
    data::lemma_data_left_one(step);
    data::lemma_data_left_one(other_step);
    laws::law_empty_leaves_nothing(content);
    laws::law_empty_leaves_nothing(other_content);
    if !content.is_empty() {
        data::lemma_embeds_one(data::data_left(seq![step])[0], data::data_left(seq![other_step])[0]);
    }
}

proof fn lemma_node_part<'a, P: Provider>(
    provider: &'a P,
    snode: SchemaNode,
    entry: P::ListEntry<'a>,
    first: bool,
    filter: GetFilter,
    other: GetFilter,
    depth: u32,
    answer: Answer<P::ListEntry<'a>, P::Task>,
    other_answer: Answer<P::ListEntry<'a>, P::Task>,
)
    requires
        steady(provider),
        no_deeper(filter, other),
        no_wider(filter, other, snode),
        walk::node_told(provider, snode, &entry, filter, depth, answer),
        walk::node_told(provider, snode, &entry, other, depth, other_answer),
    ensures
        data::content_part_of(
            walk::node_content(snode, first, filter, depth, answer),
            walk::node_content(snode, first, other, depth, other_answer),
        ),
    decreases snode, 4int, 0int,
{
    match (answer, other_answer) {
        (
            Answer::List { entries, rows },
            Answer::List { entries: other_entries, rows: other_rows },
        ) => {
            if let Some(ops) = provider::list_ops_at::<P>(snode.data_path@) {
                lemma_entries_alike(provider, ops, entry, entries, other_entries);
                lemma_rows_part(
                    provider,
                    snode,
                    ops,
                    entries,
                    filter,
                    other,
                    depth,
                    rows,
                    other_rows,
                    rows.len() as int,
                );
                assert(rows.take(rows.len() as int) =~= rows);
                assert(other_rows.take(rows.len() as int) =~= other_rows);
            } else {
                assert(walk::list_plan(snode, filter, depth, rows) =~= Seq::empty());
            }
        },
        (
            Answer::Container { object, below },
            Answer::Container { object: other_object, below: other_below },
        ) => {
            lemma_children_part(provider, snode, entry, filter, other, depth, below, other_below);
            assert(walk::object_terms(object) == walk::object_terms(other_object));
            let content = walk::container_content(snode, filter, depth, object, below);
            let other_content = walk::container_content(
                snode,
                other,
                depth,
                other_object,
                other_below,
            );
            lemma_container_part(snode, content, other_content);
        },
        (Answer::Group { below }, Answer::Group { below: other_below }) => {
            lemma_children_part(provider, snode, entry, filter, other, depth, below, other_below);
        },
        _ => {
            assert(walk::node_plan(snode, filter, depth, answer) =~= Seq::empty());
        },
    }
}

proof fn lemma_child_part<'a, P: Provider>(
    provider: &'a P,
    child: SchemaNode,
    entry: P::ListEntry<'a>,
    filter: GetFilter,
    other: GetFilter,
    depth: u32,
    answer: Answer<P::ListEntry<'a>, P::Task>,
    other_answer: Answer<P::ListEntry<'a>, P::Task>,
)
    requires
        steady(provider),
        no_deeper(filter, other),
        filter.visits(child) ==> other.visits(child),
        no_wider(filter, other, child),
        walk::child_told(provider, child, &entry, filter, depth, answer),
        walk::child_told(provider, child, &entry, other, depth, other_answer),
    ensures
        data::embeds(
            data::data_left(walk::child_plan(child, filter, depth, answer)),
            data::data_left(walk::child_plan(child, other, depth, other_answer)),
        ),
    decreases child, 5int, 0int,
{
    if filter.visits(child) {
        match answer {
            Answer::Task(task) => {
                data::lemma_data_left_one(walk::child_plan(child, filter, depth, answer)[0]);
            },
            _ => {
                assert(walk::task_told(&entry, child.module@, None));
                assert(!(other_answer is Task)) by {
                    if let Answer::Task(task) = other_answer {
                        assert(walk::task_told(&entry, child.module@, Some(task)));
                    }
                }
                lemma_node_part(
                    provider,
                    child,
                    entry,
                    false,
                    filter,
                    other,
                    walk::deeper(depth),
                    answer,
                    other_answer,
                );
            },
        }
    }
}

/// The first `upto` children of a node.
proof fn lemma_first_children_part<'a, P: Provider>(
    provider: &'a P,
    snode: SchemaNode,
    entry: P::ListEntry<'a>,
    filter: GetFilter,
    other: GetFilter,
    depth: u32,
    below: Seq<Answer<P::ListEntry<'a>, P::Task>>,
    other_below: Seq<Answer<P::ListEntry<'a>, P::Task>>,
    upto: int,
)
    requires
        steady(provider),
        no_deeper(filter, other),
        no_wider(filter, other, snode),
        !filter.stops_at(depth),
        walk::children_told(provider, snode, &entry, filter, depth, below),
        walk::children_told(provider, snode, &entry, other, depth, other_below),
        0 <= upto <= snode.children@.len(),
    ensures
        data::embeds(
            data::data_left(walk::children_plan(snode, filter, depth, below.take(upto))),
            data::data_left(walk::children_plan(snode, other, depth, other_below.take(upto))),
        ),
    decreases snode, 0int, upto,
{
    if upto > 0 {
        let at = upto - 1;
        let child = snode.children@[at];
        lemma_first_children_part(
            provider,
            snode,
            entry,
            filter,
            other,
            depth,
            below,
            other_below,
            at,
        );
        lemma_child_part(provider, child, entry, filter, other, depth, below[at], other_below[at]);
        walk::lemma_children_plan_push(snode, filter, depth, below.take(at), below[at]);
        walk::lemma_children_plan_push(snode, other, depth, other_below.take(at), other_below[at]);
        assert(below.take(upto) =~= below.take(at).push(below[at]));
        assert(other_below.take(upto) =~= other_below.take(at).push(other_below[at]));
        let init = walk::children_plan(snode, filter, depth, below.take(at));
        let other_init = walk::children_plan(snode, other, depth, other_below.take(at));
        let last = walk::child_plan(child, filter, depth, below[at]);
        let other_last = walk::child_plan(child, other, depth, other_below[at]);
        data::lemma_steps_part(init, other_init, last, other_last);
    }
}

proof fn lemma_children_part<'a, P: Provider>(
    provider: &'a P,
    snode: SchemaNode,
    entry: P::ListEntry<'a>,
    filter: GetFilter,
    other: GetFilter,
    depth: u32,
    below: Seq<Answer<P::ListEntry<'a>, P::Task>>,
    other_below: Seq<Answer<P::ListEntry<'a>, P::Task>>,
)
    requires
        steady(provider),
        no_deeper(filter, other),
        no_wider(filter, other, snode),
        walk::children_told(provider, snode, &entry, filter, depth, below),
        walk::children_told(provider, snode, &entry, other, depth, other_below),
    ensures
        data::embeds(
            data::data_left(walk::children_plan(snode, filter, depth, below)),
            data::data_left(walk::children_plan(snode, other, depth, other_below)),
        ),
    decreases snode, 1int, 0int,
{
    if !filter.stops_at(depth) {
        lemma_first_children_part(
            provider,
            snode,
            entry,
            filter,
            other,
            depth,
            below,
            other_below,
            below.len() as int,
        );
        assert(below.take(below.len() as int) =~= below);
        assert(other_below.take(below.len() as int) =~= other_below);
    }
}

/// The request that `less` serves puts no data into the data tree that the
/// one that `more` serves does not put there. Both are served in the same way:
/// from here, by the same question to another task, or not at all.
pub open spec fn gives_no_more<T, Y>(
    less: Result<Option<GetPlan<T>>, Error<Y>>,
    more: Result<Option<GetPlan<T>>, Error<Y>>,
) -> bool {
    match (less, more) {
        (
            Ok(Some(GetPlan::Local { path, content, .. })),
            Ok(Some(GetPlan::Local { path: more_path, content: more_content, .. })),
        ) => path@ == more_path@ && data::content_part_of(content@, more_content@),
        (Ok(Some(GetPlan::Relay(relay))), Ok(Some(GetPlan::Relay(more_relay)))) => {
            &&& relay.request.path is Some
            &&& more_relay.request.path is Some
            &&& relay.request.path->0@ == more_relay.request.path->0@
        },
        (Ok(None), Ok(None)) => true,
        (Err(error), Err(more_error)) => error == more_error,
        _ => false,
    }
}

/// The requests that `one` and `other` serve put the same data into the data
/// tree.
pub open spec fn gives_same<T, Y>(
    one: Result<Option<GetPlan<T>>, Error<Y>>,
    other: Result<Option<GetPlan<T>>, Error<Y>>,
) -> bool {
    &&& gives_no_more(one, other)
    &&& one matches Ok(Some(GetPlan::Local { content, .. })) ==> other matches Ok(
        Some(GetPlan::Local { content: other_content, .. }),
    ) && data::data_left(content@.nodes) == data::data_left(other_content@.nodes)
}

proof fn lemma_get_part<'a, P: Provider, Y>(
    provider: &'a P,
    path: Seq<char>,
    target: Result<Option<Target>, Y>,
    filter: GetFilter,
    other: GetFilter,
    plan: Result<Option<GetPlan<P::Task>>, Error<Y>>,
    other_plan: Result<Option<GetPlan<P::Task>>, Error<Y>>,
)
    requires
        steady(provider),
        no_deeper(filter, other),
        target matches Ok(Some(target)) ==> no_wider(filter, other, target.snode),
        get::get_answered(provider, path, target, filter, plan),
        get::get_answered(provider, path, target, other, other_plan),
    ensures
        gives_no_more(plan, other_plan),
{
    if let Ok(Some(target)) = target {
        let snode = target.snode;
        let served = plan->Ok_0->0;
        let other_served = other_plan->Ok_0->0;
        let entry = choose|entry: P::ListEntry<'a>| #[trigger]
            lookup::lookup_told(provider, target.inclusive_ancestors@, entry) && get::get_served(
                provider,
                path,
                snode,
                &entry,
                filter,
                served,
            );
        let other_entry = choose|entry: P::ListEntry<'a>| #[trigger]
            lookup::lookup_told(provider, target.inclusive_ancestors@, entry) && get::get_served(
                provider,
                path,
                snode,
                &entry,
                other,
                other_served,
            );
        law_lookup_is_steady(provider, target.inclusive_ancestors@, entry, other_entry);
        match (served, other_served) {
            (
                GetPlan::Local { content, .. },
                GetPlan::Local { content: other_content, .. },
            ) => {
                let empty = SubtreeView::<P::Task>::empty();
                if snode.kind == SchemaNodeKind::List {
                    let below = walk::children_answers(
                        provider,
                        snode,
                        &entry,
                        filter,
                        0,
                        empty,
                        content@,
                    );
                    let other_below = walk::children_answers(
                        provider,
                        snode,
                        &entry,
                        other,
                        0,
                        empty,
                        other_content@,
                    );
                    lemma_children_part(
                        provider,
                        snode,
                        entry,
                        filter,
                        other,
                        0,
                        below,
                        other_below,
                    );
                    assert(content@.nodes =~= walk::children_plan(snode, filter, 0, below));
                    assert(other_content@.nodes =~= walk::children_plan(
                        snode,
                        other,
                        0,
                        other_below,
                    ));
                    assert(content@.terms =~= other_content@.terms);
                } else {
                    let answer = walk::node_answer(
                        provider,
                        snode,
                        &entry,
                        true,
                        filter,
                        0,
                        empty,
                        content@,
                    );
                    let other_answer = walk::node_answer(
                        provider,
                        snode,
                        &entry,
                        true,
                        other,
                        0,
                        empty,
                        other_content@,
                    );
                    lemma_node_part(
                        provider,
                        snode,
                        entry,
                        true,
                        filter,
                        other,
                        0,
                        answer,
                        other_answer,
                    );
                    assert(content@ =~= walk::node_content(snode, true, filter, 0, answer));
                    assert(other_content@ =~= walk::node_content(
                        snode,
                        true,
                        other,
                        0,
                        other_answer,
                    ));
                }
            },
            (GetPlan::Relay(relay), GetPlan::Relay(other_relay)) => {},
            (GetPlan::Relay(relay), GetPlan::Local { .. }) => {
                assert(walk::task_told(&entry, snode.module@, Some(relay.nb_tx)));
                assert(walk::task_told(&entry, snode.module@, None));
            },
            (GetPlan::Local { .. }, GetPlan::Relay(relay)) => {
                assert(walk::task_told(&entry, snode.module@, Some(relay.nb_tx)));
                assert(walk::task_told(&entry, snode.module@, None));
            },
        }
    }
}

proof fn lemma_get_same<'a, P: Provider, Y>(
    provider: &'a P,
    path: Seq<char>,
    target: Result<Option<Target>, Y>,
    filter: GetFilter,
    other: GetFilter,
    plan: Result<Option<GetPlan<P::Task>>, Error<Y>>,
    other_plan: Result<Option<GetPlan<P::Task>>, Error<Y>>,
)
    requires
        steady(provider),
        filter.max_depth == other.max_depth,
        target matches Ok(Some(target)) ==> no_wider(filter, other, target.snode) && no_wider(
            other,
            filter,
            target.snode,
        ),
        get::get_answered(provider, path, target, filter, plan),
        get::get_answered(provider, path, target, other, other_plan),
    ensures
        gives_same(plan, other_plan),
{
    lemma_get_part(provider, path, target, filter, other, plan, other_plan);
    lemma_get_part(provider, path, target, other, filter, other_plan, plan);
    match (plan, other_plan) {
        (
            Ok(Some(GetPlan::Local { content, .. })),
            Ok(Some(GetPlan::Local { content: other_content, .. })),
        ) => {
            data::law_mutual_parts_are_equal(
                data::data_left(content@.nodes),
                data::data_left(other_content@.nodes),
            );
        },
        _ => {},
    }
}

proof fn lemma_no_wider(filter: GetFilter, other: GetFilter, snode: SchemaNode)
    requires
        forall|module: Seq<char>, name: Seq<char>| #[trigger]
            other.names(module, name) ==> filter.names(module, name),
    ensures
        no_wider(filter, other, snode),
    decreases snode,
{
    assert forall|i: int| 0 <= i < snode.children@.len() implies {
        &&& filter.visits(#[trigger] snode.children@[i]) ==> other.visits(snode.children@[i])
        &&& no_wider(filter, other, snode.children@[i])
    } by {
        lemma_no_wider(filter, other, snode.children@[i]);
    }
}

/// Every exclude entry of `other` is one of `filter`.
pub open spec fn excludes_all_of(filter: GetFilter, other: GetFilter) -> bool {
    forall|i: int|
        0 <= i < other.exclude@.len() ==> filter::texts(filter.exclude@).contains(
            (#[trigger] other.exclude@[i])@,
        )
}

proof fn lemma_more_entries_name_more(
    filter: GetFilter,
    other: GetFilter,
    module: Seq<char>,
    name: Seq<char>,
)
    requires
        excludes_all_of(filter, other),
        other.names(module, name),
    ensures
        filter.names(module, name),
{
    let at = choose|i: int|
        0 <= i < other.exclude@.len() && filter::entry_names(
            (#[trigger] other.exclude@[i])@,
            module,
            name,
        );
    let text = other.exclude@[at]@;
    let texts = filter::texts(filter.exclude@);
    assert(texts.contains(text));
    let found = choose|i: int| 0 <= i < texts.len() && texts[i] == text;
    assert(filter::entry_names(filter.exclude@[found]@, module, name));
}

/// No list entry has a task of its own for any child.
pub open spec fn alone<'a, P: Provider>(provider: &'a P) -> bool {
    forall|entry: P::ListEntry<'a>, module: Seq<char>, task: Option<P::Task>| #[trigger]
        walk::task_told(&entry, module, task) ==> task is None
}

/// A step asks no other task, at any level.
pub open spec fn step_relays_nothing<T>(step: NodeView<T>) -> bool
    decreases step,
{
    match step {
        NodeView::Relay { .. } => false,
        NodeView::List { content, .. } | NodeView::Container { content, .. } => relays_nothing(
            content.nodes,
        ),
    }
}

/// The steps ask no other task, at any level.
pub open spec fn relays_nothing<T>(nodes: Seq<NodeView<T>>) -> bool
    decreases nodes,
{
    forall|i: int| 0 <= i < nodes.len() ==> step_relays_nothing(#[trigger] nodes[i])
}

proof fn lemma_node_alone<'a, P: Provider>(
    provider: &'a P,
    snode: SchemaNode,
    entry: P::ListEntry<'a>,
    filter: GetFilter,
    depth: u32,
    answer: Answer<P::ListEntry<'a>, P::Task>,
)
    requires
        alone(provider),
        walk::node_told(provider, snode, &entry, filter, depth, answer),
    ensures
        relays_nothing(walk::node_plan(snode, filter, depth, answer)),
    decreases snode, 2int, 0int,
{
    let nodes = walk::node_plan(snode, filter, depth, answer);
    match answer {
        Answer::List { entries, rows } => {
            if let Some(ops) = provider::list_ops_at::<P>(snode.data_path@) {
                assert forall|i: int| 0 <= i < nodes.len() implies step_relays_nothing(
                    #[trigger] nodes[i],
                ) by {
                    assert(walk::row_told(provider, snode, ops, &entries[i], filter, depth, rows[i]));
                    lemma_children_alone(
                        provider,
                        snode,
                        entries[i],
                        filter,
                        depth,
                        rows[i].below,
                        rows[i].below.len() as int,
                    );
                    assert(rows[i].below.take(rows[i].below.len() as int) =~= rows[i].below);
                }
            }
        },
        Answer::Container { below, .. } | Answer::Group { below } => {
            lemma_children_alone(
                provider,
                snode,
                entry,
                filter,
                depth,
                below,
                below.len() as int,
            );
            assert(below.take(below.len() as int) =~= below);
        },
        _ => {},
    }
}

/// The first `upto` children of a node.
proof fn lemma_children_alone<'a, P: Provider>(
    provider: &'a P,
    snode: SchemaNode,
    entry: P::ListEntry<'a>,
    filter: GetFilter,
    depth: u32,
    below: Seq<Answer<P::ListEntry<'a>, P::Task>>,
    upto: int,
)
    requires
        alone(provider),
        walk::children_told(provider, snode, &entry, filter, depth, below),
        0 <= upto <= below.len(),
    ensures
        relays_nothing(walk::children_plan(snode, filter, depth, below.take(upto))),
    decreases snode, 1int, upto,
{
    if upto > 0 {
        let at = upto - 1;
        let child = snode.children@[at];
        lemma_children_alone(provider, snode, entry, filter, depth, below, at);
        assert(walk::child_told(provider, child, &entry, filter, depth, below[at]));
        if filter.visits(child) {
            assert(!(below[at] is Task)) by {
                if let Answer::Task(task) = below[at] {
                    assert(walk::task_told(&entry, child.module@, Some(task)));
                }
            }
            lemma_node_alone(provider, child, entry, filter, walk::deeper(depth), below[at]);
        }
        walk::lemma_children_plan_push(snode, filter, depth, below.take(at), below[at]);
        assert(below.take(upto) =~= below.take(at).push(below[at]));
    }
}

/// Where no list entry has a task of its own, requests are served from here
/// and ask no other task: the data is all that is put into the data tree.
pub proof fn law_alone_relays_nothing<'a, P: Provider, Y>(
    provider: &'a P,
    path: Seq<char>,
    target: Result<Option<Target>, Y>,
    filter: GetFilter,
    plan: Result<Option<GetPlan<P::Task>>, Error<Y>>,
)
    requires
        alone(provider),
        get::get_answered(provider, path, target, filter, plan),
    ensures
        plan matches Ok(Some(plan)) ==> plan matches GetPlan::Local { content, .. }
            && relays_nothing(content@.nodes),
{
    if let Ok(Some(target)) = target {
        let snode = target.snode;
        let served = plan->Ok_0->0;
        let entry = choose|entry: P::ListEntry<'a>| #[trigger]
            lookup::lookup_told(provider, target.inclusive_ancestors@, entry) && get::get_served(
                provider,
                path,
                snode,
                &entry,
                filter,
                served,
            );
        match served {
            GetPlan::Relay(relay) => {
                assert(walk::task_told(&entry, snode.module@, Some(relay.nb_tx)));
            },
            GetPlan::Local { content, .. } => {
                let empty = SubtreeView::<P::Task>::empty();
                if snode.kind == SchemaNodeKind::List {
                    let below = walk::children_answers(
                        provider,
                        snode,
                        &entry,
                        filter,
                        0,
                        empty,
                        content@,
                    );
                    lemma_children_alone(
                        provider,
                        snode,
                        entry,
                        filter,
                        0,
                        below,
                        below.len() as int,
                    );
                    assert(below.take(below.len() as int) =~= below);
                    assert(content@.nodes =~= walk::children_plan(snode, filter, 0, below));
                } else {
                    let answer = walk::node_answer(
                        provider,
                        snode,
                        &entry,
                        true,
                        filter,
                        0,
                        empty,
                        content@,
                    );
                    lemma_node_alone(provider, snode, entry, filter, 0, answer);
                    let nodes = walk::node_content(snode, true, filter, 0, answer).nodes;
                    assert(content@.nodes =~= nodes);
                    if let Answer::Container { object, below } = answer {
                        let step = walk::container_node(
                            snode,
                            walk::container_content(snode, filter, 0, object, below),
                        );
                        assert(walk::node_plan(snode, filter, 0, answer)[0] == step);
                        assert(step_relays_nothing(step));
                    }
                }
            },
        }
    }
}

/// As long as a provider answers alike, a request with a larger limit on the
/// depth, or with none, puts all the data into the data tree that a request
/// with a smaller limit and the same exclude entries puts there.
pub proof fn law_more_levels_give_no_less<'a, P: Provider, Y>(
    provider: &'a P,
    path: Seq<char>,
    target: Result<Option<Target>, Y>,
    filter: GetFilter,
    deeper: GetFilter,
    plan: Result<Option<GetPlan<P::Task>>, Error<Y>>,
    deeper_plan: Result<Option<GetPlan<P::Task>>, Error<Y>>,
)
    requires
        steady(provider),
        excludes_all_of(filter, deeper),
        deeper.max_depth == 0 || 0 < filter.max_depth <= deeper.max_depth,
        get::get_answered(provider, path, target, filter, plan),
        get::get_answered(provider, path, target, deeper, deeper_plan),
    ensures
        gives_no_more(plan, deeper_plan),
{
    assert forall|module: Seq<char>, name: Seq<char>| #[trigger]
        deeper.names(module, name) implies filter.names(module, name) by {
        lemma_more_entries_name_more(filter, deeper, module, name);
    }
    if let Ok(Some(target)) = target {
        lemma_no_wider(filter, deeper, target.snode);
    }
    lemma_get_part(provider, path, target, filter, deeper, plan, deeper_plan);
}

/// As long as a provider answers alike, a request with more exclude entries
/// puts no data into the data tree that a request with fewer of them does not
/// put there.
pub proof fn law_more_exclude_entries_give_no_more<'a, P: Provider, Y>(
    provider: &'a P,
    path: Seq<char>,
    target: Result<Option<Target>, Y>,
    filter: GetFilter,
    wider: GetFilter,
    plan: Result<Option<GetPlan<P::Task>>, Error<Y>>,
    wider_plan: Result<Option<GetPlan<P::Task>>, Error<Y>>,
)
    requires
        steady(provider),
        filter.max_depth == wider.max_depth,
        excludes_all_of(filter, wider),
        get::get_answered(provider, path, target, filter, plan),
        get::get_answered(provider, path, target, wider, wider_plan),
    ensures
        gives_no_more(plan, wider_plan),
{
    assert forall|module: Seq<char>, name: Seq<char>| #[trigger]
        wider.names(module, name) implies filter.names(module, name) by {
        lemma_more_entries_name_more(filter, wider, module, name);
    }
    if let Ok(Some(target)) = target {
        lemma_no_wider(filter, wider, target.snode);
    }
    lemma_get_part(provider, path, target, filter, wider, plan, wider_plan);
}

/// As long as a provider answers alike, the order of the exclude entries and
/// their repetition make no difference to the data.
pub proof fn law_exclude_entries_are_a_set<'a, P: Provider, Y>(
    provider: &'a P,
    path: Seq<char>,
    target: Result<Option<Target>, Y>,
    filter: GetFilter,
    other: GetFilter,
    plan: Result<Option<GetPlan<P::Task>>, Error<Y>>,
    other_plan: Result<Option<GetPlan<P::Task>>, Error<Y>>,
)
    requires
        steady(provider),
        filter.max_depth == other.max_depth,
        excludes_all_of(filter, other),
        excludes_all_of(other, filter),
        get::get_answered(provider, path, target, filter, plan),
        get::get_answered(provider, path, target, other, other_plan),
    ensures
        gives_same(plan, other_plan),
{
    assert forall|module: Seq<char>, name: Seq<char>| #[trigger]
        other.names(module, name) implies filter.names(module, name) by {
        lemma_more_entries_name_more(filter, other, module, name);
    }
    assert forall|module: Seq<char>, name: Seq<char>| #[trigger]
        filter.names(module, name) implies other.names(module, name) by {
        lemma_more_entries_name_more(other, filter, module, name);
    }
    if let Ok(Some(target)) = target {
        lemma_no_wider(filter, other, target.snode);
        lemma_no_wider(other, filter, target.snode);
    }
    lemma_get_same(provider, path, target, filter, other, plan, other_plan);
}

/// The exclude entry names a list or container below `snode`, at any level.
pub open spec fn names_below(snode: SchemaNode, entry: Seq<char>) -> bool
    decreases snode,
{
    exists|i: int|
        0 <= i < snode.children@.len() && {
            let child = #[trigger] snode.children@[i];
            ||| child.kind.is_interior() && !child.kind.is_wrapper() && filter::entry_names(
                entry,
                child.module@,
                child.name@,
            )
            ||| names_below(child, entry)
        }
}

proof fn lemma_idle_entries(filter: GetFilter, other: GetFilter, snode: SchemaNode)
    requires
        forall|i: int|
            0 <= i < other.exclude@.len() ==> filter::texts(filter.exclude@).contains(
                (#[trigger] other.exclude@[i])@,
            ) || !names_below(snode, other.exclude@[i]@),
    ensures
        no_wider(filter, other, snode),
    decreases snode,
{
    assert forall|i: int| 0 <= i < snode.children@.len() implies {
        &&& filter.visits(#[trigger] snode.children@[i]) ==> other.visits(snode.children@[i])
        &&& no_wider(filter, other, snode.children@[i])
    } by {
        let child = snode.children@[i];
        assert forall|j: int| 0 <= j < other.exclude@.len() implies filter::texts(
            filter.exclude@,
        ).contains((#[trigger] other.exclude@[j])@) || !names_below(
            child,
            other.exclude@[j]@,
        ) by {
            if names_below(child, other.exclude@[j]@) {
                assert(names_below(snode, other.exclude@[j]@));
            }
        }
        lemma_idle_entries(filter, other, child);
        if filter.visits(child) && !other.visits(child) {
            let at = choose|j: int|
                0 <= j < other.exclude@.len() && filter::entry_names(
                    (#[trigger] other.exclude@[j])@,
                    child.module@,
                    child.name@,
                );
            let text = other.exclude@[at]@;
            let texts = filter::texts(filter.exclude@);
            assert(names_below(snode, text));
            let found = choose|j: int| 0 <= j < texts.len() && texts[j] == text;
            assert(filter::entry_names(filter.exclude@[found]@, child.module@, child.name@));
        }
    }
}

/// As long as a provider answers alike, exclude entries that name no list and
/// no container below the data node make no difference to the data. In
/// particular the name of a leaf removes no leaf.
pub proof fn law_idle_exclude_entries_change_nothing<'a, P: Provider, Y>(
    provider: &'a P,
    path: Seq<char>,
    target: Result<Option<Target>, Y>,
    filter: GetFilter,
    more: GetFilter,
    plan: Result<Option<GetPlan<P::Task>>, Error<Y>>,
    more_plan: Result<Option<GetPlan<P::Task>>, Error<Y>>,
)
    requires
        steady(provider),
        filter.max_depth == more.max_depth,
        excludes_all_of(more, filter),
        target matches Ok(Some(target)) ==> forall|i: int|
            0 <= i < more.exclude@.len() ==> filter::texts(filter.exclude@).contains(
                (#[trigger] more.exclude@[i])@,
            ) || !names_below(target.snode, more.exclude@[i]@),
        get::get_answered(provider, path, target, filter, plan),
        get::get_answered(provider, path, target, more, more_plan),
    ensures
        gives_same(plan, more_plan),
{
    assert forall|module: Seq<char>, name: Seq<char>| #[trigger]
        filter.names(module, name) implies more.names(module, name) by {
        lemma_more_entries_name_more(more, filter, module, name);
    }
    if let Ok(Some(target)) = target {
        lemma_idle_entries(filter, more, target.snode);
        lemma_no_wider(more, filter, target.snode);
    }
    lemma_get_same(provider, path, target, filter, more, plan, more_plan);
}

/// As long as a provider answers alike and no list entry has a task of its
/// own, an entry that a stream delivers has the leaves of its report, and below
/// them the data that a Get request for that entry gives with the same filter.
/// The Get request leaves the leaves of the entry itself out.
pub proof fn law_streamed_entry_is_a_get<'a, P: Provider, Y>(
    provider: &'a P,
    path: Seq<char>,
    target: Target,
    entry: P::ListEntry<'a>,
    filter: GetFilter,
    plan: Result<Option<GetPlan<P::Task>>, Error<Y>>,
    fields: Seq<DataTerm>,
    content: Subtree<P::Task>,
)
    requires
        steady(provider),
        alone(provider),
        target.snode.kind == SchemaNodeKind::List,
        lookup::lookup_told(provider, target.inclusive_ancestors@, entry),
        get::get_answered(provider, path, Ok::<_, Y>(Some(target)), filter, plan),
        walk::children_walked(
            provider,
            target.snode,
            &entry,
            filter,
            0,
            SubtreeView { terms: fields, nodes: Seq::empty() },
            content@,
        ),
    ensures
        plan matches Ok(Some(GetPlan::Local { content: got, .. })) && {
            &&& got@.terms.len() == 0
            &&& content@.terms == fields
            &&& data::data_left(content@.nodes) == data::data_left(got@.nodes)
        },
{
    let snode = target.snode;
    law_alone_relays_nothing(provider, path, Ok::<_, Y>(Some(target)), filter, plan);
    if let Ok(Some(GetPlan::Local { path: place, content: got, filter: kept })) = plan {
        let served = GetPlan::Local { path: place, content: got, filter: kept };
        let found = choose|found: P::ListEntry<'a>| #[trigger]
            lookup::lookup_told(provider, target.inclusive_ancestors@, found) && get::get_served(
                provider,
                path,
                snode,
                &found,
                filter,
                served,
            );
        law_lookup_is_steady(provider, target.inclusive_ancestors@, entry, found);
        let below = walk::children_answers(
            provider,
            snode,
            &entry,
            filter,
            0,
            SubtreeView { terms: fields, nodes: Seq::empty() },
            content@,
        );
        let got_below = walk::children_answers(
            provider,
            snode,
            &entry,
            filter,
            0,
            SubtreeView::empty(),
            got@,
        );
        lemma_no_wider(filter, filter, snode);
        lemma_children_part(provider, snode, entry, filter, filter, 0, below, got_below);
        lemma_children_part(provider, snode, entry, filter, filter, 0, got_below, below);
        assert(content@.nodes =~= walk::children_plan(snode, filter, 0, below));
        assert(got@.nodes =~= walk::children_plan(snode, filter, 0, got_below));
        data::law_mutual_parts_are_equal(
            data::data_left(content@.nodes),
            data::data_left(got@.nodes),
        );
    }
}

} // verus!
