//! What a scan found: a tree of directories and what they hold.

use vstd::prelude::*;

verus! {

/// What an entry of the tree is.
#[derive(Clone, Copy, Debug, PartialEq, Eq, Structural)]
pub enum NodeKind {
    Directory,
    File,
}

/// What is measured.
#[derive(Clone, Copy, Debug, PartialEq, Eq, Structural)]
pub enum Metric {
    /// The space entries occupy.
    Bytes,
}

/// One entry of the tree, by its name as shown.
#[derive(Debug)]
pub struct Node {
    pub name: String,
    pub kind: NodeKind,
    /// The space a file occupies, or, once aggregated, all that is in a
    /// directory.
    pub bytes: u64,
    pub children: Vec<Node>,
}

/// What a [`Node`] stands for.
pub struct NodeView {
    pub name: Seq<char>,
    pub kind: NodeKind,
    pub bytes: u64,
    pub children: Seq<NodeView>,
}

/// What a node stands for.
pub open spec fn node_view(node: Node) -> NodeView
    decreases node,
{
    NodeView {
        name: node.name@,
        kind: node.kind,
        bytes: node.bytes,
        children: Seq::new(
            node.children@.len(),
            |i: int|
                if 0 <= i < node.children@.len() {
                    node_view(node.children@[i])
                } else {
                    arbitrary()
                },
        ),
    }
}

impl View for Node {
    type V = NodeView;

    open spec fn view(&self) -> NodeView {
        node_view(*self)
    }
}

impl Node {
    /// An empty directory.
    pub fn directory(name: &str) -> (r: Node)
        ensures
            r@ == (NodeView {
                name: name@,
                kind: NodeKind::Directory,
                bytes: 0,
                children: seq![],
            }),
    {
        let node = Node {
            name: name.to_owned(),
            kind: NodeKind::Directory,
            bytes: 0,
            children: Vec::new(),
        };
        assert(node@.children =~= Seq::<NodeView>::empty());
        node
    }

    /// An entry of `bytes`.
    pub fn entry(name: &str, kind: NodeKind, bytes: u64) -> (r: Node)
        ensures
            r@ == (NodeView { name: name@, kind, bytes, children: seq![] }),
    {
        let node = Node { name: name.to_owned(), kind, bytes, children: Vec::new() };
        assert(node@.children =~= Seq::<NodeView>::empty());
        node
    }

    /// What the entry measures.
    pub fn value(&self, metric: Metric) -> (r: u64)
        ensures
            r == self@.bytes,
    {
        match metric {
            Metric::Bytes => self.bytes,
        }
    }

    /// Whether the entry is a directory.
    pub fn is_dir(&self) -> (r: bool)
        ensures
            r == (self@.kind is Directory),
    {
        match self.kind {
            NodeKind::Directory => true,
            NodeKind::File => false,
        }
    }
}

/// The bytes of `nodes`, together, as far as they can be counted.
pub open spec fn sum_of(nodes: Seq<NodeView>) -> u64
    decreases nodes.len(),
{
    if nodes.len() == 0 {
        0
    } else {
        let sum = sum_of(nodes.drop_last()) + nodes.last().bytes;
        if sum <= u64::MAX {
            sum as u64
        } else {
            u64::MAX
        }
    }
}

/// A tree in which every directory measures all that is in it.
pub open spec fn aggregated(node: NodeView) -> NodeView
    decreases node,
{
    let children = Seq::new(
        node.children.len(),
        |i: int|
            if 0 <= i < node.children.len() {
                aggregated(node.children[i])
            } else {
                arbitrary()
            },
    );
    NodeView {
        bytes: if node.kind is Directory {
            sum_of(children)
        } else {
            node.bytes
        },
        children,
        ..node
    }
}

/// A node's entries stand for the entries of what it stands for.
pub proof fn lemma_children(node: Node)
    ensures
        node@.children.len() == node.children@.len(),
        forall|i: int|
            0 <= i < node.children@.len() ==> #[trigger] node@.children[i] == node.children@[i]@,
{
}

/// Aggregating a tree aggregates each of its entries.
pub proof fn lemma_aggregated_children(node: NodeView)
    ensures
        aggregated(node).children.len() == node.children.len(),
        forall|i: int|
            0 <= i < node.children.len() ==> #[trigger] aggregated(node).children[i]
                == aggregated(node.children[i]),
{
}

/// Measure every directory by what is in it.
pub fn aggregate(node: &mut Node, metric: Metric)
    ensures
        final(node)@ == aggregated(old(node)@),
    decreases *old(node),
{
    let ghost start = *node;
    let ghost want = aggregated(node@).children;
    let mut sum: u64 = 0;
    let mut i: usize = 0;
    proof {
        lemma_children(start);
        lemma_aggregated_children(start@);
    }
    assert(want.take(0) =~= Seq::<NodeView>::empty());
    while i < node.children.len()
        invariant
            i <= node.children@.len(),
            want == aggregated(start@).children,
            want.len() == node.children@.len(),
            start.children@.len() == node.children@.len(),
            start == *old(node),
            node.name == start.name,
            node.kind == start.kind,
            node.bytes == start.bytes,
            forall|k: int| i <= k < node.children@.len() ==> node.children@[k] == start.children@[k],
            forall|k: int| 0 <= k < i ==> (#[trigger] node.children@[k])@ == want[k],
            sum == sum_of(want.take(i as int)),
        decreases node.children@.len() - i,
    {
        proof {
            lemma_children(start);
            lemma_aggregated_children(start@);
            assert(node.children@[i as int] == start.children@[i as int]);
            assert(start@.children[i as int] == start.children@[i as int]@);
            assert(want[i as int] == aggregated(start@.children[i as int]));
        }
        aggregate(&mut node.children[i], metric);
        proof {
            assert(want.take(i + 1).drop_last() =~= want.take(i as int));
            assert(want.take(i + 1).last() == node.children@[i as int]@);
        }
        sum = match sum.checked_add(node.children[i].value(metric)) {
            Some(more) => more,
            None => u64::MAX,
        };
        i += 1;
    }
    assert(want.take(want.len() as int) =~= want);
    match node.kind {
        NodeKind::Directory => {
            node.bytes = sum;
        },
        NodeKind::File => {},
    }
    proof {
        lemma_children(*node);
        assert(node@.children =~= want);
    }
}

} // verus!
