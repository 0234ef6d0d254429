//! What a lookup finds, in terms of what the provider hands out.
use vstd::prelude::*;

use crate::compare;
use crate::lookup;
use crate::lookup::{find_entry, key_predicates, lookup_list_entry, ListKey, PathNode};
use crate::plan::YangObject;
use crate::provider;
use crate::provider::{container_ops, list_ops, ListIterator, Provider, YangContainerOps, YangListOps};
use crate::schema::SchemaNodeKind;

verus! {

/// The iterator `iter` hands out `entries` one after the other, and goes
/// through `states` in doing so.
pub open spec fn hands_out<I: ListIterator>(
    iter: I,
    entries: Seq<I::Entry>,
    states: Seq<I>,
) -> bool {
    &&& states.len() == entries.len() + 1
    &&& states[0] == iter
    &&& forall|i: int, j: int|
        #![trigger states[i], states[j]]
        0 <= i && j == i + 1 && j < states.len() ==> call_ensures(
            I::next,
            (states[i],),
            Some((entries[i], states[j])),
        )
}

/// Entries that were drawn from an iterator are those that it hands out, in
/// that order and without a gap.
pub proof fn law_drawn_entries_are_handed_out<I: ListIterator>(
    iter: I,
    entries: Seq<I::Entry>,
    rest: I,
) -> (states: Seq<I>)
    requires
        provider::drawn(iter, entries, rest),
    ensures
        hands_out(iter, entries, states),
        states.last() == rest,
    decreases entries.len(),
{
    if entries.len() == 0 {
        seq![iter]
    } else {
        let before = choose|before: I|
            provider::drawn(iter, entries.drop_last(), before) && #[trigger] call_ensures(
                I::next,
                (before,),
                Some((entries.last(), rest)),
            );
        let states = law_drawn_entries_are_handed_out(iter, entries.drop_last(), before);
        let more = states.push(rest);
        assert forall|i: int, j: int|
            #![trigger more[i], more[j]]
            0 <= i && j == i + 1 && j < more.len() implies call_ensures(
            I::next,
            (more[i],),
            Some((entries[i], more[j])),
        ) by {
            if j < states.len() {
                assert(states[i] == more[i] && states[j] == more[j]);
                assert(entries.drop_last()[i] == entries[i]);
            }
        }
        more
    }
}

/// An iterator that was drained has handed out all of its entries: nothing
/// comes after the last of them.
pub proof fn law_drained_to_the_end<I: ListIterator>(iter: I, entries: Seq<I::Entry>) -> (states:
    Seq<I>)
    requires
        provider::drained(iter, entries),
    ensures
        hands_out(iter, entries, states),
        call_ensures(I::next, (states.last(),), None),
{
    let rest = choose|rest: I| #[trigger]
        provider::drawn(iter, entries, rest) && call_ensures(I::next, (rest,), None);
    law_drawn_entries_are_handed_out(iter, entries, rest)
}

/// The entries of a list below `list_entry` are all that the iterator of the
/// list hands out, and none if there is no iterator.
pub proof fn law_entries_come_from_the_iterator<'a, P: Provider>(
    provider: &'a P,
    ops: YangListOps,
    list_entry: &P::ListEntry<'a>,
    entries: Seq<P::ListEntry<'a>>,
) -> (told: (Option<P::ListIter<'a>>, Seq<P::ListIter<'a>>))
    requires
        provider::entries_told(provider, ops, list_entry, entries),
    ensures
        call_ensures(P::list_iter, (provider, &ops, list_entry), told.0),
        match told.0 {
            Some(iter) => hands_out(iter, entries, told.1) && call_ensures(
                <P::ListIter<'a> as ListIterator>::next,
                (told.1.last(),),
                None,
            ),
            None => entries.len() == 0,
        },
{
    let iter = choose|iter: Option<P::ListIter<'a>>| #[trigger]
        call_ensures(P::list_iter, (provider, &ops, list_entry), iter) && match iter {
            Some(iter) => provider::drained(iter, entries),
            None => entries.len() == 0,
        };
    let states = match iter {
        Some(iter) => law_drained_to_the_end(iter, entries),
        None => Seq::empty(),
    };
    (iter, states)
}

/// The dispatch tables are looked up by the path itself.
pub proof fn law_tables_are_looked_up_by_path<P: Provider>(
    path: &str,
    list: Option<YangListOps>,
    container: Option<YangContainerOps>,
)
    requires
        call_ensures(list_ops::<P>, (path,), list),
        call_ensures(container_ops::<P>, (path,), container),
    ensures
        list is Some <==> provider::list_table(P::YANG_OPS.list).contains_key(path@),
        list is Some ==> list->0 == provider::list_table(P::YANG_OPS.list)[path@],
        container is Some <==> provider::container_table(P::YANG_OPS.container).contains_key(path@),
        container is Some ==> container->0 == provider::container_table(
            P::YANG_OPS.container,
        )[path@],
{
}

/// The predicate of a key: name and value as they are, between `[`, `='` and
/// `']`.
pub open spec fn predicate(name: Seq<char>, value: Seq<char>) -> Seq<char> {
    seq!['['] + name + seq!['=', '\''] + value + seq!['\'', ']']
}

/// The predicates of keys, in their order.
pub open spec fn predicates(keys: Seq<ListKey>) -> Seq<char> {
    Seq::new(keys.len(), |i: int| predicate(keys[i].name@, keys[i].value@)).flatten()
}

proof fn lemma_keys_text(keys: Seq<ListKey>)
    ensures
        lookup::keys_text(keys) == predicates(keys),
    decreases keys.len(),
{
    let texts = Seq::new(keys.len(), |i: int| predicate(keys[i].name@, keys[i].value@));
    if keys.len() == 0 {
        assert(texts =~= Seq::empty());
    } else {
        let init = keys.drop_last();
        lemma_keys_text(init);
        let init_texts = Seq::new(init.len(), |i: int| predicate(init[i].name@, init[i].value@));
        let last = predicate(keys.last().name@, keys.last().value@);
        assert(texts =~= init_texts.push(last));
        init_texts.lemma_flatten_push(last);
        reveal_strlit("[");
        reveal_strlit("='");
        reveal_strlit("']");
        assert("["@ =~= seq!['[']);
        assert("='"@ =~= seq!['=', '\'']);
        assert("']"@ =~= seq!['\'', ']']);
    }
}

/// Key predicates are written as the predicates of the keys one after the
/// other, each with the whole name and the whole value of its key.
pub proof fn law_key_predicates_are_written_out(keys: &Vec<ListKey>, text: String)
    requires
        call_ensures(key_predicates, (keys,), text),
    ensures
        text@ == predicates(keys@),
{
    lemma_keys_text(keys@);
}

/// The text of a single key is five characters longer than its name and value
/// together, and both can be read back from it, whatever characters they hold.
pub proof fn law_key_can_be_read_back(keys: &Vec<ListKey>, text: String)
    requires
        keys@.len() == 1,
        call_ensures(key_predicates, (keys,), text),
    ensures
        text@.len() == keys@[0].name@.len() + keys@[0].value@.len() + 5,
        text@.subrange(1, 1int + keys@[0].name@.len()) == keys@[0].name@,
        text@.subrange(3int + keys@[0].name@.len(), text@.len() - 2) == keys@[0].value@,
{
    lemma_keys_text(keys@);
    let name = keys@[0].name@;
    let value = keys@[0].value@;
    let texts = Seq::new(keys@.len(), |i: int| predicate(keys@[i].name@, keys@[i].value@));
    assert(texts =~= seq![predicate(name, value)]);
    texts.lemma_flatten_one_element();
    assert(text@ == predicate(name, value));
    assert(text@.subrange(1, 1int + name.len()) =~= name);
    assert(text@.subrange(3int + name.len(), text@.len() - 2) =~= value);
}

/// Keys of the same name have the same text only if they have the same value.
pub proof fn law_different_values_have_different_texts(
    one: &Vec<ListKey>,
    other: &Vec<ListKey>,
    text: String,
    other_text: String,
)
    requires
        one@.len() == 1,
        other@.len() == 1,
        one@[0].name@ == other@[0].name@,
        call_ensures(key_predicates, (one,), text),
        call_ensures(key_predicates, (other,), other_text),
    ensures
        text@ == other_text@ <==> one@[0].value@ == other@[0].value@,
{
    law_key_can_be_read_back(one, text);
    law_key_can_be_read_back(other, other_text);
    if one@[0].value@ == other@[0].value@ {
        law_key_predicates_are_written_out(one, text);
        law_key_predicates_are_written_out(other, other_text);
        assert(Seq::new(1, |i: int| predicate(one@[i].name@, one@[i].value@)) =~= Seq::new(
            1,
            |i: int| predicate(other@[i].name@, other@[i].value@),
        ));
    }
}

/// `entries` are handed out first by the iterator of the list below `parent`,
/// and `objects` are the reports on them.
pub open spec fn reported_below<'a, P: Provider>(
    provider: &'a P,
    ops: YangListOps,
    parent: P::ListEntry<'a>,
    entries: Seq<P::ListEntry<'a>>,
    objects: Seq<YangObject>,
    iter: P::ListIter<'a>,
    states: Seq<P::ListIter<'a>>,
) -> bool {
    &&& call_ensures(P::list_iter, (provider, &ops, &parent), Some(iter))
    &&& hands_out(iter, entries, states)
    &&& objects.len() == entries.len()
    &&& forall|i: int|
        0 <= i < entries.len() ==> call_ensures(
            P::list_new,
            (provider, &ops, &entries[i]),
            #[trigger] objects[i],
        )
}

/// `picked` is the first entry of the list below `parent` whose reported keys
/// are `text`.
pub open spec fn picks<'a, P: Provider>(
    provider: &'a P,
    ops: YangListOps,
    parent: P::ListEntry<'a>,
    text: Seq<char>,
    picked: P::ListEntry<'a>,
) -> bool {
    exists|
        entries: Seq<P::ListEntry<'a>>,
        objects: Seq<YangObject>,
        iter: P::ListIter<'a>,
        states: Seq<P::ListIter<'a>>,
    | #[trigger]
        reported_below(provider, ops, parent, entries, objects, iter, states) && {
            &&& entries.len() > 0
            &&& picked == entries.last()
            &&& objects.last().list_keys@ == text
            &&& forall|i: int|
                0 <= i < objects.len() - 1 ==> (#[trigger] objects[i]).list_keys@ != text
        }
}

/// The list below `parent` has no iterator, or no entry whose reported keys are
/// `text`.
pub open spec fn lacks<'a, P: Provider>(
    provider: &'a P,
    ops: YangListOps,
    parent: P::ListEntry<'a>,
    text: Seq<char>,
) -> bool {
    ||| call_ensures(P::list_iter, (provider, &ops, &parent), None)
    ||| exists|
        entries: Seq<P::ListEntry<'a>>,
        objects: Seq<YangObject>,
        iter: P::ListIter<'a>,
        states: Seq<P::ListIter<'a>>,
    | #[trigger]
        reported_below(provider, ops, parent, entries, objects, iter, states) && {
            &&& call_ensures(<P::ListIter<'a> as ListIterator>::next, (states.last(),), None)
            &&& forall|i: int|
                0 <= i < objects.len() ==> (#[trigger] objects[i]).list_keys@ != text
        }
}

proof fn lemma_search<'a, P: Provider>(
    provider: &'a P,
    ops: YangListOps,
    parent: P::ListEntry<'a>,
    text: Seq<char>,
    entries: Seq<P::ListEntry<'a>>,
    objects: Seq<YangObject>,
    found: Option<P::ListEntry<'a>>,
)
    requires
        lookup::search_told(provider, ops, parent, text, entries, objects, found),
    ensures
        match found {
            Some(found) => picks(provider, ops, parent, text, found),
            None => lacks(provider, ops, parent, text),
        },
{
    match found {
        Some(found) => {
            let (iter, rest) = choose|iter: P::ListIter<'a>, rest: P::ListIter<'a>|
                call_ensures(P::list_iter, (provider, &ops, &parent), Some(iter))
                    && #[trigger] provider::drawn(iter, entries, rest);
            let states = law_drawn_entries_are_handed_out(iter, entries, rest);
            assert(reported_below(provider, ops, parent, entries, objects, iter, states));
        },
        None => {
            let (told, states) = law_entries_come_from_the_iterator(
                provider,
                ops,
                &parent,
                entries,
            );
            if let Some(iter) = told {
                assert(reported_below(provider, ops, parent, entries, objects, iter, states));
            }
        },
    }
}

/// A search finds the first entry that has the keys, and nothing exactly if
/// the list has no such entry.
pub proof fn law_search_finds_the_first<'a, P: Provider>(
    provider: &'a P,
    ops: &YangListOps,
    parent: &P::ListEntry<'a>,
    keys: &String,
    found: Option<P::ListEntry<'a>>,
)
    requires
        call_ensures(find_entry::<P>, (provider, ops, parent, keys), found),
    ensures
        match found {
            Some(found) => picks(provider, *ops, *parent, keys@, found),
            None => lacks(provider, *ops, *parent, keys@),
        },
{
    let (entries, objects) = choose|
        entries: Seq<P::ListEntry<'a>>,
        objects: Seq<YangObject>,
    | #[trigger]
        lookup::search_told(provider, *ops, *parent, keys@, entries, objects, found);
    lemma_search(provider, *ops, *parent, keys@, entries, objects, found);
}

/// The list that the provider serves where the data node stands, if the node
/// is an entry of such a list.
pub open spec fn served_list<P: Provider>(node: PathNode) -> Option<YangListOps> {
    let table = provider::list_table(P::YANG_OPS.list);
    if node.kind == SchemaNodeKind::List && table.contains_key(node.data_path@) {
        Some(table[node.data_path@])
    } else {
        None
    }
}

/// `lower` stands for a data node if `upper` stands for what is above it: the
/// same entry, unless the node is an entry of a served list; then that entry of
/// the list below `upper` which has the keys of the node.
pub open spec fn goes_down<'a, P: Provider>(
    provider: &'a P,
    node: PathNode,
    upper: P::ListEntry<'a>,
    lower: P::ListEntry<'a>,
) -> bool {
    match served_list::<P>(node) {
        Some(ops) => picks(provider, ops, upper, predicates(node.list_keys@), lower),
        None => lower == upper,
    }
}

/// `chain` goes down the data nodes from the root, which is the last of
/// `nodes`, and ends with `found`: at the first of `nodes`, or where the list
/// entry that a node stands for is missing, in which case `found` is a default
/// entry.
pub open spec fn reaches<'a, P: Provider>(
    provider: &'a P,
    nodes: Seq<PathNode>,
    chain: Seq<P::ListEntry<'a>>,
    found: P::ListEntry<'a>,
) -> bool {
    &&& 0 < chain.len() <= nodes.len() + 1
    &&& forall|i: int, j: int|
        #![trigger chain[i], chain[j]]
        0 <= i && j == i + 1 && j < chain.len() ==> goes_down(
            provider,
            nodes[nodes.len() - j],
            chain[i],
            chain[j],
        )
    &&& if chain.len() == nodes.len() + 1 {
        found == chain.last()
    } else {
        let node = nodes[nodes.len() - chain.len()];
        &&& served_list::<P>(node) is Some
        &&& lacks(
            provider,
            served_list::<P>(node)->0,
            chain.last(),
            predicates(node.list_keys@),
        )
        &&& call_ensures(<P::ListEntry<'a> as Default>::default, (), found)
    }
}

proof fn lemma_reaches<'a, P: Provider>(
    provider: &'a P,
    nodes: Seq<PathNode>,
    entry: P::ListEntry<'a>,
    found: P::ListEntry<'a>,
) -> (chain: Seq<P::ListEntry<'a>>)
    requires
        lookup::entry_told(provider, nodes, entry, found),
    ensures
        reaches(provider, nodes, chain, found),
        chain[0] == entry,
    decreases nodes.len(),
{
    if nodes.len() == 0 {
        seq![entry]
    } else {
        let node = nodes.last();
        let next = choose|next: Option<P::ListEntry<'a>>| #[trigger]
            lookup::step_told(provider, node, entry, next) && match next {
                Some(next) => lookup::entry_told(provider, nodes.drop_last(), next, found),
                None => lookup::default_told::<P>(found),
            };
        lemma_keys_text(node.list_keys@);
        if let Some(ops) = served_list::<P>(node) {
            let (entries, objects) = choose|
                entries: Seq<P::ListEntry<'a>>,
                objects: Seq<YangObject>,
            | #[trigger]
                lookup::search_told(
                    provider,
                    ops,
                    entry,
                    lookup::keys_text(node.list_keys@),
                    entries,
                    objects,
                    next,
                );
            lemma_search(
                provider,
                ops,
                entry,
                lookup::keys_text(node.list_keys@),
                entries,
                objects,
                next,
            );
        }
        match next {
            Some(next) => {
                let lower = lemma_reaches(provider, nodes.drop_last(), next, found);
                let chain = seq![entry] + lower;
                assert forall|i: int, j: int|
                    #![trigger chain[i], chain[j]]
                    0 <= i && j == i + 1 && j < chain.len() implies goes_down(
                    provider,
                    nodes[nodes.len() - j],
                    chain[i],
                    chain[j],
                ) by {
                    if i > 0 {
                        assert(chain[i] == lower[i - 1] && chain[j] == lower[j - 1]);
                        assert(nodes[nodes.len() - j] == nodes.drop_last()[nodes.drop_last().len()
                            - (j - 1)]);
                    }
                }
                assert(chain.last() == lower.last());
                chain
            },
            None => {
                assert(seq![entry].last() == entry);
                seq![entry]
            },
        }
    }
}

/// A lookup starts from a default entry and goes down from the root, through
/// the entry that has the keys of the node at each list which the provider
/// serves. If one of these entries is missing, a default entry stands for the
/// data node.
pub proof fn law_lookup_goes_down_by_keys<'a, P: Provider>(
    provider: &'a P,
    inclusive_ancestors: Seq<PathNode>,
    found: P::ListEntry<'a>,
) -> (chain: Seq<P::ListEntry<'a>>)
    requires
        lookup::lookup_told(provider, inclusive_ancestors, found),
    ensures
        reaches(provider, inclusive_ancestors, chain, found),
        call_ensures(<P::ListEntry<'a> as Default>::default, (), chain[0]),
{
    let start = choose|start: P::ListEntry<'a>| #[trigger]
        lookup::default_told::<P>(start) && lookup::entry_told(
            provider,
            inclusive_ancestors,
            start,
            found,
        );
    lemma_reaches(provider, inclusive_ancestors, start, found)
}

/// The same of the lookup of the list entry itself.
pub proof fn law_lookup_list_entry<'a, P: Provider>(
    provider: &'a P,
    inclusive_ancestors: &Vec<PathNode>,
    found: P::ListEntry<'a>,
) -> (chain: Seq<P::ListEntry<'a>>)
    requires
        call_ensures(lookup_list_entry::<P>, (provider, inclusive_ancestors), found),
    ensures
        reaches(provider, inclusive_ancestors@, chain, found),
        call_ensures(<P::ListEntry<'a> as Default>::default, (), chain[0]),
{
    law_lookup_goes_down_by_keys(provider, inclusive_ancestors@, found)
}

proof fn lemma_handed_out_alike<I: ListIterator>(
    iter: I,
    one: Seq<I::Entry>,
    one_states: Seq<I>,
    other: Seq<I::Entry>,
    other_states: Seq<I>,
    at: int,
)
    requires
        compare::steady_iter::<I>(),
        hands_out(iter, one, one_states),
        hands_out(iter, other, other_states),
        0 <= at <= one.len(),
        at <= other.len(),
    ensures
        one_states[at] == other_states[at],
        at > 0 ==> one[at - 1] == other[at - 1],
    decreases at,
{
    if at > 0 {
        lemma_handed_out_alike(iter, one, one_states, other, other_states, at - 1);
        assert(call_ensures(
            I::next,
            (one_states[at - 1],),
            Some((one[at - 1], one_states[at])),
        ));
        assert(call_ensures(
            I::next,
            (other_states[at - 1],),
            Some((other[at - 1], other_states[at])),
        ));
    }
}

/// Of an iterator that hands out the same entry each time it is asked, all
/// entries that it hands out are the same each time.
pub proof fn lemma_all_handed_out_alike<I: ListIterator>(
    iter: I,
    one: Seq<I::Entry>,
    one_states: Seq<I>,
    other: Seq<I::Entry>,
    other_states: Seq<I>,
)
    requires
        compare::steady_iter::<I>(),
        hands_out(iter, one, one_states),
        call_ensures(I::next, (one_states.last(),), None),
        hands_out(iter, other, other_states),
        call_ensures(I::next, (other_states.last(),), None),
    ensures
        one == other,
{
    if one.len() < other.len() {
        let end = one.len() as int;
        lemma_handed_out_alike(iter, one, one_states, other, other_states, end);
        assert(call_ensures(
            I::next,
            (other_states[end],),
            Some((other[end], other_states[end + 1])),
        ));
    } else if other.len() < one.len() {
        let end = other.len() as int;
        lemma_handed_out_alike(iter, one, one_states, other, other_states, end);
        assert(call_ensures(I::next, (one_states[end],), Some((one[end], one_states[end + 1]))));
    } else {
        assert forall|i: int| 0 <= i < one.len() implies one[i] == other[i] by {
            lemma_handed_out_alike(iter, one, one_states, other, other_states, i + 1);
        }
        assert(one =~= other);
    }
}

/// As long as a provider answers alike, a list that hands out an entry with the
/// keys does not lack it, and the first entry with the keys is the one that is
/// picked.
pub proof fn law_present_entry_is_picked<'a, P: Provider>(
    provider: &'a P,
    ops: YangListOps,
    parent: P::ListEntry<'a>,
    text: Seq<char>,
    entries: Seq<P::ListEntry<'a>>,
    objects: Seq<YangObject>,
    iter: P::ListIter<'a>,
    states: Seq<P::ListIter<'a>>,
    at: int,
)
    requires
        compare::steady(provider),
        reported_below(provider, ops, parent, entries, objects, iter, states),
        0 <= at < entries.len(),
        objects[at].list_keys@ == text,
        forall|i: int| 0 <= i < at ==> (#[trigger] objects[i]).list_keys@ != text,
    ensures
        !lacks(provider, ops, parent, text),
        forall|picked: P::ListEntry<'a>| #[trigger]
            picks(provider, ops, parent, text, picked) ==> picked == entries[at],
{
    assert(call_ensures(P::list_iter, (provider, &ops, &parent), Some(iter)));
    assert(call_ensures(P::list_new, (provider, &ops, &entries[at]), objects[at]));
    if lacks(provider, ops, parent, text) {
        if call_ensures(P::list_iter, (provider, &ops, &parent), None) {
            assert(Some(iter) == None::<P::ListIter<'a>>);
        }
        let (other, other_objects, other_iter, other_states) = choose|
            other: Seq<P::ListEntry<'a>>,
            other_objects: Seq<YangObject>,
            other_iter: P::ListIter<'a>,
            other_states: Seq<P::ListIter<'a>>,
        | #[trigger]
            reported_below(
                provider,
                ops,
                parent,
                other,
                other_objects,
                other_iter,
                other_states,
            ) && {
                &&& call_ensures(
                    <P::ListIter<'a> as ListIterator>::next,
                    (other_states.last(),),
                    None,
                )
                &&& forall|i: int|
                    0 <= i < other_objects.len() ==> (#[trigger] other_objects[i]).list_keys@
                        != text
            };
        assert(Some(iter) == Some(other_iter));
        if other.len() <= at {
            let end = other.len() as int;
            lemma_handed_out_alike(iter, entries, states, other, other_states, end);
            assert(call_ensures(
                <P::ListIter<'a> as ListIterator>::next,
                (states[end],),
                Some((entries[end], states[end + 1])),
            ));
        } else {
            lemma_handed_out_alike(iter, entries, states, other, other_states, at + 1);
            assert(call_ensures(P::list_new, (provider, &ops, &other[at]), other_objects[at]));
            assert(compare::same_report(objects[at], other_objects[at]));
        }
    }
    assert forall|picked: P::ListEntry<'a>| #[trigger]
        picks(provider, ops, parent, text, picked) implies picked == entries[at] by {
        let (other, other_objects, other_iter, other_states) = choose|
            other: Seq<P::ListEntry<'a>>,
            other_objects: Seq<YangObject>,
            other_iter: P::ListIter<'a>,
            other_states: Seq<P::ListIter<'a>>,
        | #[trigger]
            reported_below(
                provider,
                ops,
                parent,
                other,
                other_objects,
                other_iter,
                other_states,
            ) && {
                &&& other.len() > 0
                &&& picked == other.last()
                &&& other_objects.last().list_keys@ == text
                &&& forall|i: int|
                    0 <= i < other_objects.len() - 1 ==> (#[trigger] other_objects[i]).list_keys@
                        != text
            };
        assert(Some(iter) == Some(other_iter));
        let last = other.len() - 1;
        let both = if last < at {
            last
        } else {
            at
        };
        lemma_handed_out_alike(iter, entries, states, other, other_states, both + 1);
        assert(call_ensures(P::list_new, (provider, &ops, &other[both]), other_objects[both]));
        assert(call_ensures(P::list_new, (provider, &ops, &entries[both]), objects[both]));
        assert(compare::same_report(objects[both], other_objects[both]));
    }
}

} // verus!
