//! Plans: what a request puts into the data tree.
use vstd::prelude::*;

verus! {

/// A leaf or an item of a leaf-list.
#[derive(Debug)]
pub struct DataTerm {
    /// Module of the leaf, where it is not that of the parent.
    pub module: Option<String>,
    pub name: String,
    pub value: Option<String>,
}

/// What a provider reports about one container or one list entry.
#[derive(Debug)]
pub struct YangObject {
    /// Key predicates of a list entry, as they stand in a path.
    pub list_keys: String,
    pub terms: Vec<DataTerm>,
}

/// What goes below one data node.
#[derive(Debug)]
pub struct Subtree<T> {
    pub terms: Vec<DataTerm>,
    pub nodes: Vec<PlanNode<T>>,
}

/// One step in filling a data node, in the order in which it is taken.
#[derive(Debug)]
pub enum PlanNode<T> {
    /// Adds a list entry.
    List { module: String, name: String, keys: String, content: Subtree<T> },
    /// Adds a container, and takes it away again once its content is dealt
    /// with unless it is to be kept.
    Container { module: String, name: String, content: Subtree<T>, kept: bool },
    /// Has another task answer for a child node.
    Relay(RelayPoint<T>),
}

/// A child node that another task answers for.
#[derive(Debug)]
pub struct RelayPoint<T> {
    pub task: T,
    pub module: String,
    pub name: String,
    /// Depth of the data node that the child belongs to.
    pub depth: u32,
}

/// The mathematical content of a [`Subtree`].
#[verifier::ext_equal]
pub struct SubtreeView<T> {
    pub terms: Seq<DataTerm>,
    pub nodes: Seq<NodeView<T>>,
}

/// The mathematical content of a [`PlanNode`].
#[verifier::ext_equal]
pub enum NodeView<T> {
    List { module: Seq<char>, name: Seq<char>, keys: Seq<char>, content: SubtreeView<T> },
    Container { module: Seq<char>, name: Seq<char>, content: SubtreeView<T>, kept: bool },
    Relay { task: T, module: Seq<char>, name: Seq<char>, depth: u32 },
}

/// The contents of a sequence of plan nodes.
pub open spec fn nodes_view<T>(nodes: Seq<PlanNode<T>>) -> Seq<NodeView<T>>
    decreases nodes,
{
    if nodes.len() == 0 {
        Seq::empty()
    } else {
        nodes_view(nodes.drop_last()).push(nodes.last().view())
    }
}

/// A sequence of plan nodes has the contents of its nodes, one for one.
pub proof fn lemma_nodes_view<T>(nodes: Seq<PlanNode<T>>)
    ensures
        nodes_view(nodes).len() == nodes.len(),
        forall|i: int|
            0 <= i < nodes.len() ==> #[trigger] nodes_view(nodes)[i] == nodes[i].view(),
    decreases nodes.len(),
{
    if nodes.len() > 0 {
        lemma_nodes_view(nodes.drop_last());
    }
}

impl<T> PlanNode<T> {
    pub open spec fn view(self) -> NodeView<T>
        decreases self,
    {
        match self {
            PlanNode::List { module, name, keys, content } => NodeView::List {
                module: module@,
                name: name@,
                keys: keys@,
                content: content.view(),
            },
            PlanNode::Container { module, name, content, kept } => NodeView::Container {
                module: module@,
                name: name@,
                content: content.view(),
                kept,
            },
            PlanNode::Relay(point) => NodeView::Relay {
                task: point.task,
                module: point.module@,
                name: point.name@,
                depth: point.depth,
            },
        }
    }
}

impl<T> Subtree<T> {
    pub open spec fn view(self) -> SubtreeView<T>
        decreases self,
    {
        SubtreeView { terms: self.terms@, nodes: nodes_view(self.nodes@) }
    }

    /// Content without anything in it.
    pub fn new() -> (subtree: Self)
        ensures
            subtree@ == SubtreeView::<T>::empty(),
    {
        Subtree { terms: Vec::new(), nodes: Vec::new() }
    }

    /// Tells whether nothing is left below the data node.
    pub fn is_empty(&self) -> (empty: bool)
        ensures
            empty == self@.is_empty(),
    {
        proof {
            lemma_nodes_view(self.nodes@);
        }
        if self.terms.len() > 0 {
            return false;
        }
        let mut i: usize = 0;
        while i < self.nodes.len()
            invariant
                i <= self.nodes.len(),
                self.terms@.len() == 0,
                self@.nodes.len() == self.nodes.len(),
                forall|j: int| 0 <= j < self.nodes.len() ==> self@.nodes[j] == (
                #[trigger] self.nodes[j]).view(),
                forall|j: int| 0 <= j < i ==> !(#[trigger] self@.nodes[j]).is_data(),
            decreases self.nodes.len() - i,
        {
            assert(self@.nodes[i as int] == self.nodes[i as int].view());
            let data = match &self.nodes[i] {
                PlanNode::List { .. } => true,
                PlanNode::Container { kept, .. } => *kept,
                PlanNode::Relay(_) => false,
            };
            if data {
                assert(self@.nodes[i as int].is_data());
                return false;
            }
            i = i + 1;
        }
        true
    }

    /// Puts more content at the end.
    pub fn put(&mut self, more: Subtree<T>)
        ensures
            final(self)@ == old(self)@.then_put(more@),
    {
        let mut more = more;
        proof {
            lemma_nodes_view(self.nodes@);
            lemma_nodes_view(more.nodes@);
            lemma_nodes_view(self.nodes@ + more.nodes@);
            assert(nodes_view(self.nodes@ + more.nodes@) =~= nodes_view(self.nodes@) + nodes_view(
                more.nodes@,
            ));
        }
        self.terms.append(&mut more.terms);
        self.nodes.append(&mut more.nodes);
    }

    /// Puts one more step at the end.
    pub fn push(&mut self, node: PlanNode<T>)
        ensures
            final(self)@ == (SubtreeView {
                terms: old(self)@.terms,
                nodes: old(self)@.nodes.push(node.view()),
            }),
    {
        self.nodes.push(node);
        assert(self.nodes@.drop_last() =~= old(self).nodes@);
    }
}

impl<T> NodeView<T> {
    /// The step leaves a data node behind.
    pub open spec fn is_data(self) -> bool {
        match self {
            NodeView::List { .. } => true,
            NodeView::Container { kept, .. } => kept,
            NodeView::Relay { .. } => false,
        }
    }
}

impl<T> SubtreeView<T> {
    pub open spec fn empty() -> Self {
        SubtreeView { terms: Seq::empty(), nodes: Seq::empty() }
    }

    /// Steps without any leaves.
    pub open spec fn of_nodes(nodes: Seq<NodeView<T>>) -> Self {
        SubtreeView { terms: Seq::empty(), nodes }
    }

    /// Nothing is left below the data node.
    pub open spec fn is_empty(self) -> bool {
        self.terms.len() == 0 && forall|i: int|
            0 <= i < self.nodes.len() ==> !(#[trigger] self.nodes[i]).is_data()
    }

    /// This content with `more` put after it.
    pub open spec fn then_put(self, more: SubtreeView<T>) -> Self {
        SubtreeView { terms: self.terms + more.terms, nodes: self.nodes + more.nodes }
    }

    /// Steps that are put one after the other can be put at once.
    pub proof fn lemma_then_put(self, first: Seq<NodeView<T>>, second: Seq<NodeView<T>>)
        ensures
            self.then_put(Self::of_nodes(first)).then_put(Self::of_nodes(second)) == self.then_put(
                Self::of_nodes(first + second),
            ),
    {
        assert(self.nodes + first + second =~= self.nodes + (first + second));
    }
}

} // verus!
