//! The list entry that a data node belongs to.
use vstd::prelude::*;

use crate::plan::YangObject;
use crate::provider;
use crate::provider::{list_ops, ListIterator, Provider, YangListOps};
use crate::schema::SchemaNodeKind;

verus! {

/// A key of a list entry.
#[derive(Debug)]
pub struct ListKey {
    pub name: String,
    /// The canonical value.
    pub value: String,
}

/// A data node on the way from the node that a request names to the root.
#[derive(Debug)]
pub struct PathNode {
    pub kind: SchemaNodeKind,
    /// Path of the node's schema among the schema's data nodes.
    pub data_path: String,
    /// The keys of a list entry, in schema order.
    pub list_keys: Vec<ListKey>,
}

/// The predicate of one key, as it stands in a path.
pub open spec fn key_text(key: ListKey) -> Seq<char> {
    "["@ + key.name@ + "='"@ + key.value@ + "']"@
}

/// The predicates of all keys, one after the other.
pub open spec fn keys_text(keys: Seq<ListKey>) -> Seq<char>
    decreases keys.len(),
{
    if keys.len() == 0 {
        Seq::empty()
    } else {
        keys_text(keys.drop_last()) + key_text(keys.last())
    }
}

/// `start` can be the entry that a lookup starts from or falls back to.
pub open spec fn default_told<'a, P: Provider>(start: P::ListEntry<'a>) -> bool {
    call_ensures(<P::ListEntry<'a> as Default>::default, (), start)
}

/// `entries` can be the first entries of a list and `objects` the reports on
/// them. The last of them is `found`, and is the first one whose keys are
/// `keys`; without such an entry they are all entries of the list.
pub open spec fn search_told<'a, P: Provider>(
    provider: &'a P,
    ops: YangListOps,
    parent: P::ListEntry<'a>,
    keys: Seq<char>,
    entries: Seq<P::ListEntry<'a>>,
    objects: Seq<YangObject>,
    found: Option<P::ListEntry<'a>>,
) -> bool {
    &&& objects.len() == entries.len()
    &&& forall|i: int|
        0 <= i < objects.len() ==> call_ensures(
            P::list_new,
            (provider, &ops, &entries[i]),
            #[trigger] objects[i],
        )
    &&& match found {
        Some(entry) => {
            &&& exists|iter: P::ListIter<'a>, rest: P::ListIter<'a>|
                call_ensures(P::list_iter, (provider, &ops, &parent), Some(iter))
                    && #[trigger] provider::drawn(iter, entries, rest)
            &&& entries.len() > 0
            &&& entry == entries.last()
            &&& objects.last().list_keys@ == keys
            &&& forall|i: int|
                0 <= i < objects.len() - 1 ==> (#[trigger] objects[i]).list_keys@ != keys
        },
        None => {
            &&& provider::entries_told(provider, ops, &parent, entries)
            &&& forall|i: int|
                0 <= i < objects.len() ==> (#[trigger] objects[i]).list_keys@ != keys
        },
    }
}

/// `next` can be the entry that stands for `node` if `entry` stands for the
/// nodes above it. Only entries of lists that the provider serves are looked
/// for.
pub open spec fn step_told<'a, P: Provider>(
    provider: &'a P,
    node: PathNode,
    entry: P::ListEntry<'a>,
    next: Option<P::ListEntry<'a>>,
) -> bool {
    if node.kind != SchemaNodeKind::List {
        next == Some(entry)
    } else {
        match provider::list_ops_at::<P>(node.data_path@) {
            None => next == Some(entry),
            Some(ops) => exists|
                entries: Seq<P::ListEntry<'a>>,
                objects: Seq<YangObject>,
            | #[trigger]
                search_told(
                    provider,
                    ops,
                    entry,
                    keys_text(node.list_keys@),
                    entries,
                    objects,
                    next,
                ),
        }
    }
}

/// `found` can be the entry that stands for the first of `nodes` if `entry`
/// stands for what is above the last of them. Where an entry is missing on the
/// way, a default entry stands for everything below.
pub open spec fn entry_told<'a, P: Provider>(
    provider: &'a P,
    nodes: Seq<PathNode>,
    entry: P::ListEntry<'a>,
    found: P::ListEntry<'a>,
) -> bool
    decreases nodes.len(),
{
    if nodes.len() == 0 {
        found == entry
    } else {
        exists|next: Option<P::ListEntry<'a>>| #[trigger]
            step_told(provider, nodes.last(), entry, next) && match next {
                Some(next) => entry_told(provider, nodes.drop_last(), next, found),
                None => default_told::<P>(found),
            }
    }
}

/// `found` can be the entry that stands for a data node with the given
/// ancestors.
pub open spec fn lookup_told<'a, P: Provider>(
    provider: &'a P,
    inclusive_ancestors: Seq<PathNode>,
    found: P::ListEntry<'a>,
) -> bool {
    exists|start: P::ListEntry<'a>| #[trigger]
        default_told::<P>(start) && entry_told(provider, inclusive_ancestors, start, found)
}

/// Writes the predicates of the keys of a list entry.
pub fn key_predicates(keys: &Vec<ListKey>) -> (text: String)
    ensures
        text@ == keys_text(keys@),
{
    let mut text = String::new();
    let mut i: usize = 0;
    while i < keys.len()
        invariant
            i <= keys.len(),
            text@ == keys_text(keys@.take(i as int)),
        decreases keys.len() - i,
    {
        let key = &keys[i];
        text.append("[");
        text.append(key.name.as_str());
        text.append("='");
        text.append(key.value.as_str());
        text.append("']");
        proof {
            let more = keys@.take(i + 1);
            assert(more.drop_last() =~= keys@.take(i as int));
            assert(text@ =~= keys_text(keys@.take(i as int)) + key_text(*key));
        }
        i = i + 1;
    }
    assert(keys@.take(i as int) =~= keys@);
    text
}

/// Finds the first entry of a list that has the given keys.
pub fn find_entry<'a, P: Provider>(
    provider: &'a P,
    ops: &YangListOps,
    parent: &P::ListEntry<'a>,
    keys: &String,
) -> (found: Option<P::ListEntry<'a>>)
    ensures
        exists|entries: Seq<P::ListEntry<'a>>, objects: Seq<YangObject>| #[trigger]
            search_told(provider, *ops, *parent, keys@, entries, objects, found),
{
    let ghost mut entries: Seq<P::ListEntry<'a>> = Seq::empty();
    let ghost mut objects: Seq<YangObject> = Seq::empty();
    let list_iter = provider.list_iter(ops, parent);
    let ghost told = list_iter;
    let start = match list_iter {
        Some(list_iter) => list_iter,
        None => {
            assert(provider::entries_told(provider, *ops, parent, entries));
            assert(search_told(provider, *ops, *parent, keys@, entries, objects, None));
            return None;
        },
    };
    let mut list_iter = start;
    let ghost mut left = choose|count: nat| provider::ends_within(start, count);
    loop
        invariant
            provider::ends_within(list_iter, left),
            told == Some(start),
            call_ensures(P::list_iter, (provider, ops, parent), told),
            provider::drawn(start, entries, list_iter),
            objects.len() == entries.len(),
            forall|i: int|
                0 <= i < objects.len() ==> call_ensures(
                    P::list_new,
                    (provider, ops, &entries[i]),
                    #[trigger] objects[i],
                ),
            forall|i: int| 0 <= i < objects.len() ==> (#[trigger] objects[i]).list_keys@ != keys@,
        decreases left,
    {
        let ghost at = list_iter;
        let (entry, rest) = match list_iter.next() {
            Some(next) => next,
            None => {
                assert(provider::drained(start, entries));
                assert(provider::entries_told(provider, *ops, parent, entries));
                assert(search_told(provider, *ops, *parent, keys@, entries, objects, None));
                return None;
            },
        };
        let obj = provider.list_new(ops, &entry);
        proof {
            let earlier = entries;
            entries = earlier.push(entry);
            objects = objects.push(obj);
            provider::lemma_drawn_next(start, earlier, at, entry, rest);
            left = (left - 1) as nat;
        }
        if *keys == obj.list_keys {
            assert(search_told(provider, *ops, *parent, keys@, entries, objects, Some(entry)));
            return Some(entry);
        }
        list_iter = rest;
    }
}

/// Finds the list entry that a data node belongs to, given the node and its
/// ancestors up to the root.
pub fn lookup_list_entry<'a, P: Provider>(
    provider: &'a P,
    inclusive_ancestors: &Vec<PathNode>,
) -> (list_entry: P::ListEntry<'a>)
    ensures
        lookup_told(provider, inclusive_ancestors@, list_entry),
{
    let mut list_entry: P::ListEntry<'a> = Default::default();
    let ghost start = list_entry;
    let ghost all = inclusive_ancestors@;
    assert(default_told::<P>(start));

    // Go over the ancestors starting from the root.
    let mut left: usize = inclusive_ancestors.len();
    assert(all.take(left as int) =~= all);
    while left > 0
        invariant
            left <= inclusive_ancestors.len(),
            all == inclusive_ancestors@,
            default_told::<P>(start),
            forall|found: P::ListEntry<'a>| #[trigger]
                entry_told(provider, all.take(left as int), list_entry, found) ==> entry_told(
                    provider,
                    all,
                    start,
                    found,
                ),
        decreases left,
    {
        let ghost nodes = all.take(left as int);
        let node = &inclusive_ancestors[left - 1];
        assert(nodes.last() == node);
        assert(nodes.drop_last() =~= all.take(left - 1));
        let ghost above = list_entry;
        left = left - 1;
        if node.kind == SchemaNodeKind::List {
            if let Some(ops) = list_ops::<P>(node.data_path.as_str()) {
                let list_keys = key_predicates(&node.list_keys);

                // Find the list entry associated to the keys. Without one, a
                // default entry makes for empty output.
                match find_entry(provider, &ops, &list_entry, &list_keys) {
                    Some(entry) => {
                        list_entry = entry;
                    },
                    None => {
                        let fallback: P::ListEntry<'a> = Default::default();
                        assert(step_told(provider, *node, above, None));
                        assert(default_told::<P>(fallback));
                        assert(entry_told(provider, nodes, above, fallback));
                        return fallback;
                    },
                }
            }
        }
        assert(step_told(provider, *node, above, Some(list_entry)));
        assert forall|found: P::ListEntry<'a>| #[trigger]
            entry_told(provider, all.take(left as int), list_entry, found) implies entry_told(
            provider,
            all,
            start,
            found,
        ) by {
            assert(entry_told(provider, nodes, above, found));
        }
    }
    assert(all.take(0).len() == 0);
    assert(entry_told(provider, all.take(0), list_entry, list_entry));
    list_entry
}

} // verus!
