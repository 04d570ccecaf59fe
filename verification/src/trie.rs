//! A specialized prefix tree (trie). The design goals are:
//!
//! * Memory-efficient data storage after the setup phase
//! * Zero allocation and copying during lookup
//! * Efficient lookup
//! * The labels are segmented with a separator character (forward slash) and only full
//!   segment matches are accepted.

use crate::label::{
    is_normalized, is_path_prefix, join, longest_common, overlap, past, path_suffix, sorts_before,
};
use core::ops::Range;
use vstd::prelude::*;

pub mod builder;
pub mod compact;
mod laws;
pub mod lookup;
pub mod shape;

verus! {

/// A builder node
///
/// Unlike a trie node this data structure holds its label, children and value directly.
/// The label of a node is the route to it from its parent; the labels of two children of
/// one node never start with the same segment.
pub struct BuilderNode<Value> {
    label: Vec<u8>,
    children: Vec<BuilderNode<Value>>,
    value: Option<Value>,
}

/// The three quantities that a builder keeps count of.
pub enum Tally {
    /// The number of nodes.
    Nodes,
    /// The number of bytes in all labels taken together.
    LabelBytes,
    /// The number of nodes that carry a value.
    Values,
}

/// Where the descent for a label ends in a builder tree, before the label is added.
pub struct Landing {
    /// What is left of the label at the node where the descent ends: nothing where the
    /// label is that of the node, else the label of the leaf that is to be added below it.
    pub rest: Seq<u8>,
    /// Whether the descent splits a node, to make a new node where it ends.
    pub split: bool,
    /// The label of the node where the descent ends.
    pub label: Seq<u8>,
    /// What is left of the label of the node that is split, for that node below the new
    /// one. Nothing where no node is split.
    pub tail: Seq<u8>,
}

/// Whether the label of child `i` of `children` begins with the segment that `label`
/// begins with.
pub(crate) closed spec fn meets<Value>(
    children: Seq<BuilderNode<Value>>,
    i: int,
    label: Seq<u8>,
) -> bool {
    0 <= i < children.len() && overlap(children[i].label@, label)
}

/// Whether child `i` of `children` lies on the way to `key`.
pub(crate) closed spec fn takes<Value>(children: Seq<BuilderNode<Value>>, i: int, key: Seq<u8>) -> bool {
    0 <= i < children.len() && children[i].label@.len() > 0 && is_path_prefix(
        children[i].label@,
        key,
    )
}

/// The child of `children` that lies on the way to `key`, where there is one.
pub(crate) closed spec fn branch<Value>(children: Seq<BuilderNode<Value>>, key: Seq<u8>) -> int {
    choose|i: int| takes(children, i, key)
}

/// Whether the children are fit for one node: none has an empty label, and no two
/// labels start with the same segment.
pub(crate) closed spec fn apart<Value>(children: Seq<BuilderNode<Value>>) -> bool {
    &&& forall|i: int| 0 <= i < children.len() ==> (#[trigger] children[i]).label@.len() > 0
    &&& forall|i: int, j: int|
        0 <= i < j < children.len() ==> !overlap(
            (#[trigger] children[i]).label@,
            (#[trigger] children[j]).label@,
        )
}

impl<Value> BuilderNode<Value> {
    /// The label of the node.
    pub closed spec fn label(self) -> Seq<u8> {
        self.label@
    }

    /// Whether the subtree is well-formed: every label is normalized, no child has an
    /// empty label, and no two children of one node have labels that start with the same
    /// segment.
    pub closed spec fn wf(self) -> bool
        decreases self,
    {
        &&& is_normalized(self.label@)
        &&& apart(self.children@)
        &&& forall|i: int| 0 <= i < self.children@.len() ==> (#[trigger] self.children@[i]).wf()
    }

    /// Where the descent for `label`, a label relative to this node, ends.
    ///
    /// Where no child begins with the segment that the label does, it ends here, with the
    /// whole label left. Where the label of such a child goes beyond what it has in common
    /// with the label, the child is split: the descent ends at the new node for the common
    /// part, with what follows it in the label left. Else the descent goes on in the child,
    /// for what follows the label of the child in the label.
    pub closed spec fn landing(self, label: Seq<u8>) -> Landing
        decreases self,
    {
        if exists|i: int| meets(self.children@, i, label) {
            let i = choose|i: int| meets(self.children@, i, label);
            let child = self.children@[i];
            let length = longest_common(child.label@, label);
            if length < child.label@.len() {
                Landing {
                    rest: past(label, length),
                    split: true,
                    label: child.label@.subrange(0, length),
                    tail: child.label@.subrange(length + 1, child.label@.len() as int),
                }
            } else {
                child.landing(past(label, length))
            }
        } else {
            Landing { rest: label, split: false, label: self.label@, tail: Seq::empty() }
        }
    }

    /// How many children the node has.
    pub closed spec fn child_count(self) -> int {
        self.children@.len() as int
    }

    /// Whether the node carries a value.
    pub closed spec fn has_value(self) -> bool {
        self.value is Some
    }

    /// The child of the node at `at`.
    pub closed spec fn child(self, at: int) -> Self {
        self.children@[at]
    }

    /// Whether the node is of use below another: it carries a value, or it is where two
    /// children or more part.
    pub closed spec fn fit(self) -> bool {
        self.value is Some || self.children@.len() >= 2
    }

    /// Whether the node carries a value or has a child.
    pub closed spec fn nearly_fit(self) -> bool {
        self.value is Some || self.children@.len() >= 1
    }

    /// Whether every node below this one is of use: none is without a value unless two
    /// children or more part there. So every node without children carries a value.
    pub closed spec fn lean(self) -> bool
        decreases self,
    {
        forall|i: int|
            0 <= i < self.children@.len() ==> (#[trigger] self.children@[i]).fit()
                && self.children@[i].lean()
    }

    /// The node that `path`, a label relative to this node, leads to: the node itself for
    /// the empty path, else the node that what follows the label of a child in the path
    /// leads to from that child. No node where the path is not made of labels of nodes.
    pub closed spec fn node_at(self, path: Seq<u8>) -> Option<Self>
        decreases self,
    {
        if path.len() == 0 {
            Some(self)
        } else if exists|i: int| takes(self.children@, i, path) {
            let i = branch(self.children@, path);
            self.children@[i].node_at(path_suffix(path, self.children@[i].label@))
        } else {
            None
        }
    }

    /// The value that the subtree holds for `key`, a label relative to this node.
    pub closed spec fn entry(self, key: Seq<u8>) -> Option<Value>
        decreases self,
    {
        if key.len() == 0 {
            self.value
        } else if exists|i: int| takes(self.children@, i, key) {
            let i = branch(self.children@, key);
            self.children@[i].entry(path_suffix(key, self.children@[i].label@))
        } else {
            None
        }
    }

    /// What the node itself adds to a tally.
    pub closed spec fn own(self, what: Tally) -> nat {
        match what {
            Tally::Nodes => 1,
            Tally::LabelBytes => self.label@.len(),
            Tally::Values => if self.value is Some {
                1
            } else {
                0
            },
        }
    }

    /// A tally over the subtree.
    pub closed spec fn size(self, what: Tally) -> nat
        decreases self,
    {
        self.own(what) + Self::total(self.children@, what)
    }

    /// A tally over several subtrees.
    pub closed spec fn total(nodes: Seq<Self>, what: Tally) -> nat
        decreases nodes,
    {
        if nodes.len() == 0 {
            0
        } else {
            Self::total(nodes.drop_last(), what) + nodes.last().size(what)
        }
    }

    /// A tally over the subtrees below the node.
    pub closed spec fn below(self, what: Tally) -> nat {
        Self::total(self.children@, what)
    }

    /// Whether a child with the given label can be added: the label starts with another
    /// segment than that of every child.
    pub closed spec fn clear_of(self, label: Seq<u8>) -> bool {
        forall|i: int|
            0 <= i < self.children@.len() ==> !overlap(
                (#[trigger] self.children@[i]).label@,
                label,
            )
    }

    /// The labels for which the subtree holds a value, each with its value.
    pub closed spec fn entries(self) -> Map<Seq<u8>, Value> {
        Map::new(|key: Seq<u8>| self.entry(key) is Some, |key: Seq<u8>| self.entry(key)->0)
    }
}

/// Whether `after` is the tree `before` in which `filled` has taken the place of the node
/// `hole`, which `path` leads to, so that `path` leads to `filled` in `after`.
///
/// The labels that continue the path have in `after` the values that `filled` holds for
/// what continues it; all other labels have the values that they have in `before`. The
/// tallies of `after` are those of `before`, changed by what `filled` has more than
/// `hole` and by `nodes` and `labels` besides.
pub open spec fn grafted<Value>(
    before: BuilderNode<Value>,
    after: BuilderNode<Value>,
    path: Seq<u8>,
    hole: BuilderNode<Value>,
    filled: BuilderNode<Value>,
    nodes: int,
    labels: int,
) -> bool {
    &&& after.label() == before.label()
    &&& after.wf()
    &&& after.node_at(path) == Some(filled)
    &&& forall|key: Seq<u8>| #[trigger]
        after.entry(key) == (if is_path_prefix(path, key) {
            filled.entry(path_suffix(key, path))
        } else {
            before.entry(key)
        })
    &&& forall|key: Seq<u8>| #[trigger] hole.entry(key) == before.entry(join(path, key))
    &&& after.size(Tally::Nodes) - filled.size(Tally::Nodes) == before.size(Tally::Nodes)
        - hole.size(Tally::Nodes) + nodes
    &&& after.size(Tally::LabelBytes) - filled.size(Tally::LabelBytes) == before.size(
        Tally::LabelBytes,
    ) - hole.size(Tally::LabelBytes) + labels
    &&& after.size(Tally::Values) - filled.size(Tally::Values) == before.size(Tally::Values)
        - hole.size(Tally::Values)
}

/// A trie builder used to set up a trie
///
/// In addition to setting up the trie structure, this keeps track of the sizes that the
/// vectors of the trie will have.
pub struct TrieBuilder<Value> {
    nodes: usize,
    labels: usize,
    values: usize,
    root: BuilderNode<Value>,
}

impl<Value> TrieBuilder<Value> {
    /// Whether the builder is well-formed: its tree is, and has no node that is of no use;
    /// the root has the empty label; the counters are the tallies of the tree; and there
    /// are as many values as labels that the builder holds a value for.
    pub closed spec fn wf(self) -> bool {
        &&& self.root.wf()
        &&& self.root.lean()
        &&& self.root.label@.len() == 0
        &&& self.nodes == self.root.size(Tally::Nodes)
        &&& self.labels == self.root.size(Tally::LabelBytes)
        &&& self.values == self.root.size(Tally::Values)
        &&& self.root.entries().dom().finite()
        &&& self.root.entries().dom().len() == self.values
    }

    /// There are as many values as labels that the builder holds a value for, and no more
    /// nodes than twice as many and the root: every node without children carries a value,
    /// and every other node without a value is where two children or more part.
    pub proof fn lemma_counters(self)
        requires
            self.wf(),
        ensures
            self@.dom().finite(),
            self@.dom().len() == self.tally(Tally::Values),
            self.tally(Tally::Nodes) <= 2 * self.tally(Tally::Values) + 1,
            self.tally(Tally::Nodes) >= 1,
    {
        self.root.lemma_lean_size();
    }

    /// Where the descent for `label` ends in the tree of the builder, before the label is
    /// added: what is left of the label there, and whether a node is split.
    pub closed spec fn landing(self, label: Seq<u8>) -> Landing {
        self.root.landing(label)
    }

    /// A counter of the builder.
    pub closed spec fn tally(self, what: Tally) -> nat {
        match what {
            Tally::Nodes => self.nodes as nat,
            Tally::LabelBytes => self.labels as nat,
            Tally::Values => self.values as nat,
        }
    }

    /// Whether the counters have room for one more label of the given length.
    pub open spec fn has_room(self, length: nat) -> bool {
        &&& self.tally(Tally::Nodes) + 2 <= usize::MAX
        &&& self.tally(Tally::LabelBytes) + length <= usize::MAX
        &&& self.tally(Tally::Values) + 1 <= usize::MAX
    }
}

impl<Value> View for TrieBuilder<Value> {
    type V = Map<Seq<u8>, Value>;

    /// The labels pushed so far, each with the value it was last pushed with.
    closed spec fn view(&self) -> Map<Seq<u8>, Value> {
        self.root.entries()
    }
}

/// A trie node
///
/// A node label can consist of one or multiple segments (separated by the separator).
/// These segments represent the route to the node from its parent node.
///
/// The value is optional. Nodes without a value serve merely as a routing point for
/// multiple child nodes.
///
/// Each child node represents a unique path further from this node. Multiple child node
/// labels never start with the same segment: in such scenarios the builder inserts an
/// intermediate node that serves as the common parent for all nodes reachable via that
/// segment.
pub struct Node {
    label: Range<usize>,
    value: Option<usize>,
    children: Range<usize>,
}

impl Node {
    /// The node as it stands in the vector before data is transferred to it: an empty
    /// label, no value and no children.
    pub closed spec fn blank() -> Node {
        Node { label: 0..0, value: None, children: 0..0 }
    }
}

/// Where the children of the node at `index` begin in the vector of nodes.
pub closed spec fn first_child(nodes: Seq<Node>, index: int) -> int {
    nodes[index].children.start as int
}

/// How many children the node at `index` has in the vector of nodes.
pub closed spec fn child_count(nodes: Seq<Node>, index: int) -> int {
    nodes[index].children.end - nodes[index].children.start
}

/// Whether the children of the node at `index` of the vector of nodes, as `models`
/// holds the builder nodes for them, stand in the strict order of their labels, and no
/// two of their labels begin with the same segment.
pub closed spec fn parted<Value>(
    nodes: Seq<Node>,
    models: Seq<BuilderNode<Value>>,
    index: int,
) -> bool {
    forall|a: int, b: int|
        nodes[index].children.start <= a < b < nodes[index].children.end ==> sorts_before(
            (#[trigger] models[a]).label@,
            (#[trigger] models[b]).label@,
        ) && !overlap(models[a].label@, models[b].label@)
}

/// Whether `item` is among those of `items` that stand from `start` up to `end`.
pub closed spec fn among<T>(items: Seq<T>, start: int, end: int, item: T) -> bool {
    exists|at: int| start <= at < end && 0 <= at < items.len() && #[trigger] items[at] == item
}

/// Whether the node at `index` of the three vectors stores the builder node that `models`
/// has at `index`: the same label and value, and as many children, which are the nodes
/// that `models` holds the children of that builder node for, in the order of their
/// labels. The children stand after the node, one behind the other, and not before `low`.
#[verifier::opaque]
pub closed spec fn stores<Value>(
    nodes: Seq<Node>,
    labels: Seq<u8>,
    values: Seq<Value>,
    models: Seq<BuilderNode<Value>>,
    index: int,
    low: int,
) -> bool {
    let node = nodes[index];
    let model = models[index];
    &&& node.label.start <= node.label.end <= labels.len()
    &&& labels.subrange(node.label.start as int, node.label.end as int) == model.label@
    &&& match model.value {
        None => node.value is None,
        Some(value) => node.value matches Some(at) && at < values.len() && values[at as int]
            == value,
    }
    &&& index < node.children.start
    &&& low <= node.children.start <= node.children.end <= nodes.len()
    &&& node.children.end <= models.len()
    &&& node.children.end - node.children.start == model.children@.len()
    &&& forall|i: int|
        0 <= i < model.children@.len() ==> among(
            models,
            node.children.start as int,
            node.children.end as int,
            #[trigger] model.children@[i],
        )
    &&& forall|at: int|
        node.children.start <= at < node.children.end ==> among(
            model.children@,
            0,
            model.children@.len() as int,
            #[trigger] models[at],
        )
    &&& forall|a: int, b: int|
        node.children.start <= a < b < node.children.end ==> !sorts_before(
            (#[trigger] models[b]).label@,
            (#[trigger] models[a]).label@,
        )
}

/// A trie data structure
///
/// To use memory more efficiently and to improve locality, this stores all data in three
/// vectors. One lists all nodes, ordered in such a way that children of one node are always
/// stored consecutively and sorted by their label. A node stores an index range referring
/// to its children.
///
/// Since values are optional and potentially rather large, existing values are stored in a
/// separate vector. The node stores an optional index of its value, not the value itself.
///
/// Finally, the third vector stores the labels of the nodes, so that nodes don't need
/// separate allocations for their labels. Each node refers to its label within this vector
/// via an index range.
pub struct Trie<Value> {
    nodes: Vec<Node>,
    values: Vec<Value>,
    labels: Vec<u8>,
    models: Ghost<Seq<BuilderNode<Value>>>,
}

impl<Value> Trie<Value> {
    /// The vectors store a well-formed tree, from the root at index 0 on, and nothing
    /// else.
    #[verifier::type_invariant]
    closed spec fn wf(self) -> bool {
        &&& self.models@.len() == self.nodes@.len()
        &&& self.nodes@.len() > 0
        &&& self.models@[0].wf()
        &&& self.models@[0].label@.len() == 0
        &&& forall|index: int|
            0 <= index < self.nodes@.len() ==> #[trigger] stores(
                self.nodes@,
                self.labels@,
                self.values@,
                self.models@,
                index,
                1,
            )
        &&& self.nodes@.len() == self.models@[0].size(Tally::Nodes)
        &&& self.labels@.len() == self.models@[0].size(Tally::LabelBytes)
        &&& self.values@.len() == self.models@[0].size(Tally::Values)
    }

    /// The label of the node at `index`, as the vector of labels holds it.
    pub closed spec fn label_at(self, index: int) -> Seq<u8> {
        self.labels@.subrange(
            self.nodes@[index].label.start as int,
            self.nodes@[index].label.end as int,
        )
    }

    /// Whether the children of the node at `index` stand in the vector of nodes after
    /// the node, and in the strict order of their labels, no two of which begin with the
    /// same segment.
    pub closed spec fn sorted_at(self, index: int) -> bool {
        &&& index < self.nodes@[index].children.start
        &&& self.nodes@[index].children.start <= self.nodes@[index].children.end
            <= self.nodes@.len()
        &&& forall|a: int, b: int|
            #![trigger self.label_at(a), self.label_at(b)]
            self.nodes@[index].children.start <= a < b < self.nodes@[index].children.end
                ==> sorts_before(self.label_at(a), self.label_at(b)) && !overlap(
                self.label_at(a),
                self.label_at(b),
            )
    }

    /// Whether the children of every node stand in the vector of nodes one behind the
    /// other, after their parent and in the strict order of their labels, no two of which
    /// begin with the same segment.
    pub closed spec fn children_sorted(self) -> bool {
        forall|index: int| 0 <= index < self.nodes@.len() ==> #[trigger] self.sorted_at(index)
    }

    /// The length of one of the three vectors.
    pub closed spec fn tally(self, what: Tally) -> nat {
        match what {
            Tally::Nodes => self.nodes@.len(),
            Tally::LabelBytes => self.labels@.len(),
            Tally::Values => self.values@.len(),
        }
    }
}

impl<Value> View for Trie<Value> {
    type V = Map<Seq<u8>, Value>;

    /// The labels that the trie holds a value for, each with its value.
    closed spec fn view(&self) -> Map<Seq<u8>, Value> {
        self.models@[0].entries()
    }
}

} // verus!
