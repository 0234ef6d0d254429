//! The data that a plan leaves in the data tree.
use vstd::prelude::*;

use crate::plan::{DataTerm, NodeView, SubtreeView};

verus! {

/// A data node that is left in the data tree, with what is below it.
pub enum DataView {
    List {
        module: Seq<char>,
        name: Seq<char>,
        keys: Seq<char>,
        terms: Seq<DataTerm>,
        nodes: Seq<DataView>,
    },
    Container {
        module: Seq<char>,
        name: Seq<char>,
        terms: Seq<DataTerm>,
        nodes: Seq<DataView>,
    },
}

/// What the steps leave in the data tree: nothing of containers that are taken
/// away, nor of what is relayed.
pub open spec fn data_left<T>(nodes: Seq<NodeView<T>>) -> Seq<DataView>
    decreases nodes,
{
    if nodes.len() == 0 {
        Seq::empty()
    } else {
        let before = data_left(nodes.drop_last());
        match nodes.last() {
            NodeView::List { module, name, keys, content } => before.push(
                DataView::List {
                    module,
                    name,
                    keys,
                    terms: content.terms,
                    nodes: data_left(content.nodes),
                },
            ),
            NodeView::Container { module, name, content, kept } => if kept {
                before.push(
                    DataView::Container {
                        module,
                        name,
                        terms: content.terms,
                        nodes: data_left(content.nodes),
                    },
                )
            } else {
                before
            },
            NodeView::Relay { .. } => before,
        }
    }
}

/// Steps leave something exactly if one of them leaves a data node behind.
pub proof fn lemma_data_left_len<T>(nodes: Seq<NodeView<T>>)
    ensures
        data_left(nodes).len() > 0 <==> exists|i: int|
            0 <= i < nodes.len() && (#[trigger] nodes[i]).is_data(),
    decreases nodes,
{
    if nodes.len() > 0 {
        let init = nodes.drop_last();
        lemma_data_left_len(init);
        if exists|i: int| 0 <= i < init.len() && (#[trigger] init[i]).is_data() {
            let at = choose|i: int| 0 <= i < init.len() && (#[trigger] init[i]).is_data();
            assert(nodes[at].is_data());
        }
        if nodes.last().is_data() {
            assert(nodes[nodes.len() - 1].is_data());
        }
        if exists|i: int| 0 <= i < nodes.len() && (#[trigger] nodes[i]).is_data() {
            let at = choose|i: int| 0 <= i < nodes.len() && (#[trigger] nodes[i]).is_data();
            if at < init.len() {
                assert(init[at].is_data());
            }
        }
    }
}

/// `less` is the same data node as `more`, with the same leaves, and what is
/// below it is below `more` too.
pub open spec fn part_of(less: DataView, more: DataView) -> bool
    decreases more,
{
    match (less, more) {
        (
            DataView::List { module, name, keys, terms, nodes },
            DataView::List {
                module: more_module,
                name: more_name,
                keys: more_keys,
                terms: more_terms,
                nodes: more_nodes,
            },
        ) => {
            &&& module == more_module
            &&& name == more_name
            &&& keys == more_keys
            &&& terms == more_terms
            &&& embeds(nodes, more_nodes)
        },
        (
            DataView::Container { module, name, terms, nodes },
            DataView::Container {
                module: more_module,
                name: more_name,
                terms: more_terms,
                nodes: more_nodes,
            },
        ) => {
            &&& module == more_module
            &&& name == more_name
            &&& terms == more_terms
            &&& embeds(nodes, more_nodes)
        },
        _ => false,
    }
}

/// What is left of `more` without some of its data nodes, at any level, is
/// `less`.
pub open spec fn embeds(less: Seq<DataView>, more: Seq<DataView>) -> bool
    decreases more,
{
    if less.len() == 0 {
        true
    } else if more.len() == 0 {
        false
    } else {
        ||| embeds(less, more.drop_last())
        ||| part_of(less.last(), more.last()) && embeds(less.drop_last(), more.drop_last())
    }
}

/// The content `less` leaves no data that `more` does not leave, and the same
/// leaves in the data node itself.
pub open spec fn content_part_of<T>(less: SubtreeView<T>, more: SubtreeView<T>) -> bool {
    &&& less.terms == more.terms
    &&& embeds(data_left(less.nodes), data_left(more.nodes))
}

/// Number of data nodes, at all levels.
pub open spec fn size(data: Seq<DataView>) -> nat
    decreases data,
{
    if data.len() == 0 {
        0
    } else {
        size(data.drop_last()) + 1 + match data.last() {
            DataView::List { nodes, .. } => size(nodes),
            DataView::Container { nodes, .. } => size(nodes),
        }
    }
}

proof fn lemma_embeds_size(less: Seq<DataView>, more: Seq<DataView>)
    requires
        embeds(less, more),
    ensures
        size(less) <= size(more),
        size(less) == size(more) ==> less == more,
    decreases more,
{
    if less.len() == 0 {
        if more.len() == 0 {
            assert(less =~= more);
        }
    } else if embeds(less, more.drop_last()) {
        lemma_embeds_size(less, more.drop_last());
    } else {
        lemma_embeds_size(less.drop_last(), more.drop_last());
        assert(part_of(less.last(), more.last()));
        match (less.last(), more.last()) {
            (DataView::List { nodes, .. }, DataView::List { nodes: more_nodes, .. }) => {
                lemma_embeds_size(nodes, more_nodes);
            },
            (DataView::Container { nodes, .. }, DataView::Container { nodes: more_nodes, .. }) => {
                lemma_embeds_size(nodes, more_nodes);
            },
            _ => {},
        }
        assert(less =~= less.drop_last().push(less.last()));
        assert(more =~= more.drop_last().push(more.last()));
    }
}

/// Data of which each is part of the other is the same.
pub proof fn law_mutual_parts_are_equal(one: Seq<DataView>, other: Seq<DataView>)
    requires
        embeds(one, other),
        embeds(other, one),
    ensures
        one == other,
{
    lemma_embeds_size(one, other);
    lemma_embeds_size(other, one);
}

/// Parts that come one after the other are part of what does so too.
proof fn lemma_embeds_concat(
    less: Seq<DataView>,
    more: Seq<DataView>,
    less_after: Seq<DataView>,
    more_after: Seq<DataView>,
)
    requires
        embeds(less, more),
        embeds(less_after, more_after),
    ensures
        embeds(less + less_after, more + more_after),
    decreases more_after,
{
    if more_after.len() == 0 {
        assert(less + less_after =~= less);
        assert(more + more_after =~= more);
    } else {
        let init = more_after.drop_last();
        assert((more + more_after).drop_last() =~= more + init);
        if less_after.len() == 0 || embeds(less_after, init) {
            lemma_embeds_concat(less, more, less_after, init);
        } else {
            lemma_embeds_concat(less, more, less_after.drop_last(), init);
            assert((less + less_after).drop_last() =~= less + less_after.drop_last());
        }
    }
}

/// A data node that is part of another one is so on its own.
pub proof fn lemma_embeds_one(less: DataView, more: DataView)
    requires
        part_of(less, more),
    ensures
        embeds(seq![less], seq![more]),
{
    assert(seq![less].drop_last() =~= Seq::empty());
    assert(seq![more].drop_last() =~= Seq::empty());
    reveal_with_fuel(embeds, 2);
}

/// Steps that are taken one after the other leave what each of them leaves.
proof fn lemma_data_left_concat<T>(first: Seq<NodeView<T>>, second: Seq<NodeView<T>>)
    ensures
        data_left(first + second) == data_left(first) + data_left(second),
    decreases second.len(),
{
    if second.len() == 0 {
        assert(first + second =~= first);
        assert(data_left(first) + data_left(second) =~= data_left(first));
    } else {
        lemma_data_left_concat(first, second.drop_last());
        assert((first + second).drop_last() =~= first + second.drop_last());
        assert(data_left(first + second) =~= data_left(first) + data_left(second));
    }
}

/// What a single step leaves: one data node, or none.
pub proof fn lemma_data_left_one<T>(step: NodeView<T>)
    ensures
        data_left(seq![step]) == match step {
            NodeView::List { module, name, keys, content } => seq![
                DataView::List {
                    module,
                    name,
                    keys,
                    terms: content.terms,
                    nodes: data_left(content.nodes),
                },
            ],
            NodeView::Container { module, name, content, kept } => if kept {
                seq![
                    DataView::Container {
                        module,
                        name,
                        terms: content.terms,
                        nodes: data_left(content.nodes),
                    },
                ]
            } else {
                Seq::empty()
            },
            NodeView::Relay { .. } => Seq::empty(),
        },
{
    assert(seq![step].drop_last() =~= Seq::empty());
    reveal_with_fuel(data_left, 2);
    assert(data_left(Seq::<NodeView<T>>::empty()) =~= Seq::empty());
    match step {
        NodeView::List { module, name, keys, content } => {
            assert(data_left(seq![step]) =~= seq![
                DataView::List {
                    module,
                    name,
                    keys,
                    terms: content.terms,
                    nodes: data_left(content.nodes),
                },
            ]);
        },
        NodeView::Container { module, name, content, kept } => {
            if kept {
                assert(data_left(seq![step]) =~= seq![
                    DataView::Container {
                        module,
                        name,
                        terms: content.terms,
                        nodes: data_left(content.nodes),
                    },
                ]);
            }
        },
        NodeView::Relay { .. } => {},
    }
}

/// Where the first steps leave part of what the first of other steps leave,
/// and so do the steps after them, all of the steps do.
pub proof fn lemma_steps_part<T>(
    less: Seq<NodeView<T>>,
    more: Seq<NodeView<T>>,
    less_after: Seq<NodeView<T>>,
    more_after: Seq<NodeView<T>>,
)
    requires
        embeds(data_left(less), data_left(more)),
        embeds(data_left(less_after), data_left(more_after)),
    ensures
        embeds(data_left(less + less_after), data_left(more + more_after)),
{
    lemma_data_left_concat(less, less_after);
    lemma_data_left_concat(more, more_after);
    lemma_embeds_concat(
        data_left(less),
        data_left(more),
        data_left(less_after),
        data_left(more_after),
    );
}

} // verus!
