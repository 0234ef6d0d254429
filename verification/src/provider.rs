//! Providers of state data and their dispatch tables.
use vstd::prelude::*;

use crate::plan::YangObject;

verus! {

/// The immutable map of the `phf` crate.
#[verifier::external_type_specification]
#[verifier::external_body]
#[verifier::reject_recursive_types(K)]
#[verifier::reject_recursive_types(V)]
pub struct ExPhfMap<K: 'static, V: 'static>(phf::Map<K, V>);

/// What all northbound providers have.
pub trait ProviderBase {
    /// Path of the node that a request without a path is about.
    fn top_level_node(&self) -> (path: String);
}

/// Northbound data provider.
///
/// What a provider reports may change from one call to the next, so nothing is
/// claimed of it: the contracts of this crate speak of the values that came
/// back. The one thing that is asked of a provider is that its lists have an
/// end, without which no walk over them would come to one.
pub trait Provider: ProviderBase + Sized {
    /// Handle of a task that answers for part of the data.
    type Task;

    type ListEntry<'a>: ListEntryKind<Task = Self::Task> where Self: 'a;

    type ListIter<'a>: ListIterator<Entry = Self::ListEntry<'a>> where Self: 'a;

    const YANG_OPS: YangOps;

    /// The entries of a list below `list_entry`, in order.
    fn list_iter<'a>(&'a self, ops: &YangListOps, list_entry: &Self::ListEntry<'a>) -> (entries:
        Option<Self::ListIter<'a>>)
        ensures
            entries matches Some(iter) ==> ends(iter),
    ;

    /// What there is to report about one entry of a list.
    fn list_new<'a>(&'a self, ops: &YangListOps, list_entry: &Self::ListEntry<'a>) -> (object:
        YangObject);

    /// What there is to report about a container below `list_entry`.
    fn container_new<'a>(
        &'a self,
        ops: &YangContainerOps,
        list_entry: &Self::ListEntry<'a>,
    ) -> (object: Option<YangObject>);
}

/// Common behavior for all list entries.
pub trait ListEntryKind: std::fmt::Debug + Default {
    /// Handle of a task that answers for part of the data.
    type Task;

    /// Return the task associated with the child node of this list entry,
    /// identified by its corresponding module name.
    fn child_task(&self, _module_name: &str) -> (task: Option<Self::Task>)
        default_ensures
            task is None,
    {
        None
    }
}

/// The entries of a list, handed out one at a time.
pub trait ListIterator: Sized {
    type Entry;

    /// Hands out the next entry, if there is one, and the entries after it.
    fn next(self) -> (next: Option<(Self::Entry, Self)>);
}

/// The iterator hands out `count` entries at most.
pub open spec fn ends_within<I: ListIterator>(iter: I, count: nat) -> bool
    decreases count,
{
    forall|entry: I::Entry, rest: I| #[trigger]
        call_ensures(I::next, (iter,), Some((entry, rest))) ==> count > 0 && ends_within(
            rest,
            (count - 1) as nat,
        )
}

/// The iterator comes to an end.
pub open spec fn ends<I: ListIterator>(iter: I) -> bool {
    exists|count: nat| ends_within(iter, count)
}

/// `entries` can be what an iterator hands out first, and `rest` what is left
/// of it then.
pub open spec fn drawn<I: ListIterator>(iter: I, entries: Seq<I::Entry>, rest: I) -> bool
    decreases entries.len(),
{
    if entries.len() == 0 {
        rest == iter
    } else {
        exists|before: I|
            drawn(iter, entries.drop_last(), before) && #[trigger] call_ensures(
                I::next,
                (before,),
                Some((entries.last(), rest)),
            )
    }
}

/// One more entry goes after those that were handed out.
pub proof fn lemma_drawn_next<I: ListIterator>(
    iter: I,
    entries: Seq<I::Entry>,
    before: I,
    entry: I::Entry,
    rest: I,
)
    requires
        drawn(iter, entries, before),
        call_ensures(I::next, (before,), Some((entry, rest))),
    ensures
        drawn(iter, entries.push(entry), rest),
{
    let more = entries.push(entry);
    assert(more.drop_last() =~= entries);
    assert(call_ensures(I::next, (before,), Some((more.last(), rest))));
}

/// `entries` can be all that an iterator hands out.
pub open spec fn drained<I: ListIterator>(iter: I, entries: Seq<I::Entry>) -> bool {
    exists|rest: I| #[trigger]
        drawn(iter, entries, rest) && call_ensures(I::next, (rest,), None)
}

/// `entries` can be the entries of a list below `list_entry`.
pub open spec fn entries_told<'a, P: Provider>(
    provider: &'a P,
    ops: YangListOps,
    list_entry: &P::ListEntry<'a>,
    entries: Seq<P::ListEntry<'a>>,
) -> bool {
    exists|iter: Option<P::ListIter<'a>>| #[trigger]
        call_ensures(P::list_iter, (provider, &ops, list_entry), iter) && match iter {
            Some(iter) => drained(iter, entries),
            None => entries.len() == 0,
        }
}

/// Implemented by all YANG container structs that hold state data.
pub trait YangContainer<'a, P: Provider> {
    fn new(provider: &'a P, list_entry: &P::ListEntry<'a>) -> (container: Option<Self>) where
        Self: Sized + 'a;
}

/// Implemented by all YANG list structs that hold state data.
pub trait YangList<'a, P: Provider> {
    const STREAMABLE: bool = false;

    fn iter(provider: &'a P, list_entry: &P::ListEntry<'a>) -> (entries: Option<P::ListIter<'a>>);

    fn new(provider: &'a P, list_entry: &P::ListEntry<'a>) -> (list: Self) where Self: Sized + 'a;
}

/// Static dispatch tables generated from YANG models, by schema path.
pub struct YangOps {
    pub list: phf::Map<&'static str, YangListOps>,
    pub container: phf::Map<&'static str, YangContainerOps>,
}

/// A list that a provider serves.
#[derive(Debug, Clone, Copy)]
pub struct YangListOps {
    /// By which the provider knows the list.
    pub id: usize,
    /// Whether the entries can be streamed.
    pub streamable: bool,
}

/// A container that a provider serves.
#[derive(Debug, Clone, Copy)]
pub struct YangContainerOps {
    /// By which the provider knows the container.
    pub id: usize,
}

/// What a table of lists holds: each path that a lookup finds, with the value
/// that it finds there.
pub uninterp spec fn list_table(map: phf::Map<&'static str, YangListOps>) -> Map<
    Seq<char>,
    YangListOps,
>;

/// What a table of containers holds: each path that a lookup finds, with the
/// value that it finds there.
pub uninterp spec fn container_table(map: phf::Map<&'static str, YangContainerOps>) -> Map<
    Seq<char>,
    YangContainerOps,
>;

/// Calls `phf::Map::get` on a table of lists. It is taken to return the value
/// that the table holds for the path, and nothing where the table does not
/// hold the path. Tables are made by the macro or the code generator of the
/// crate, so that a lookup always returns.
#[verifier::external_body]
fn list_get<'m>(map: &'m phf::Map<&'static str, YangListOps>, path: &str) -> (ops: Option<
    &'m YangListOps,
>)
    ensures
        ops is Some <==> list_table(*map).contains_key(path@),
        ops is Some ==> *ops->0 == list_table(*map)[path@],
{
    map.get(path)
}

/// Calls `phf::Map::get` on a table of containers. It is taken to return the
/// value that the table holds for the path, and nothing where the table does
/// not hold the path. Tables are made by the macro or the code generator of
/// the crate, so that a lookup always returns.
#[verifier::external_body]
fn container_get<'m>(map: &'m phf::Map<&'static str, YangContainerOps>, path: &str) -> (ops: Option<
    &'m YangContainerOps,
>)
    ensures
        ops is Some <==> container_table(*map).contains_key(path@),
        ops is Some ==> *ops->0 == container_table(*map)[path@],
{
    map.get(path)
}

/// The list that the provider serves at a schema path.
pub open spec fn list_ops_at<P: Provider>(path: Seq<char>) -> Option<YangListOps> {
    if list_table(P::YANG_OPS.list).contains_key(path) {
        Some(list_table(P::YANG_OPS.list)[path])
    } else {
        None
    }
}

/// The container that the provider serves at a schema path.
pub open spec fn container_ops_at<P: Provider>(path: Seq<char>) -> Option<YangContainerOps> {
    if container_table(P::YANG_OPS.container).contains_key(path) {
        Some(container_table(P::YANG_OPS.container)[path])
    } else {
        None
    }
}

/// Looks up the list that the provider serves at a schema path.
pub fn list_ops<P: Provider>(path: &str) -> (ops: Option<YangListOps>)
    ensures
        ops == list_ops_at::<P>(path@),
{
    match list_get(&P::YANG_OPS.list, path) {
        Some(ops) => Some(*ops),
        None => None,
    }
}

/// Looks up the container that the provider serves at a schema path.
pub fn container_ops<P: Provider>(path: &str) -> (ops: Option<YangContainerOps>)
    ensures
        ops == container_ops_at::<P>(path@),
{
    match container_get(&P::YANG_OPS.container, path) {
        Some(ops) => Some(*ops),
        None => None,
    }
}

} // verus!
