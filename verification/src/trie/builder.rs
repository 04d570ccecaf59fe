//! Setting up a trie: insertion of labels.

use super::laws::{lemma_apart_past_longest, lemma_split_label};
use super::meets;
use super::shape::{is_depth, is_node, rest_at};
use super::{grafted, BuilderNode, Landing, Tally, TrieBuilder};
use crate::label::{
    common_prefix_length, consumed, is_common_prefix, is_longest_common, is_normalized,
    is_path_prefix, join, lemma_consumed_join, lemma_join_suffix, overlap, past, path_suffix,
};
use vstd::prelude::*;

verus! {

impl<Value> TrieBuilder<Value> {
    /// Creates a new builder.
    pub fn new() -> (builder: Self)
        ensures
            builder.wf(),
            builder@ == Map::<Seq<u8>, Value>::empty(),
            builder.tally(Tally::Nodes) == 1,
            builder.tally(Tally::LabelBytes) == 0,
            builder.tally(Tally::Values) == 0,
            forall|label: Seq<u8>| #[trigger]
                builder.landing(label) == (Landing {
                    rest: label,
                    split: false,
                    label: Seq::empty(),
                    tail: Seq::empty(),
                }),
    {
        let builder = Self {
            nodes: 1,
            labels: 0,
            values: 0,
            root: BuilderNode::<Value> { label: Vec::new(), children: Vec::new(), value: None },
        };
        proof {
            assert forall|what: Tally| #[trigger]
                BuilderNode::total(builder.root.children@, what) == 0 by {}
            assert forall|key: Seq<u8>| builder.root.entry(key) is None by {}
            assert(builder@ =~= Map::<Seq<u8>, Value>::empty());
            assert(builder.root.label@ =~= Seq::<u8>::empty());
            assert forall|label: Seq<u8>| #[trigger]
                builder.landing(label) == (Landing {
                    rest: label,
                    split: false,
                    label: Seq::empty(),
                    tail: Seq::empty(),
                }) by {
                builder.root.lemma_landing_here(label);
            }
        }
        builder
    }

    /// The counters of the builder: the number of nodes, of label bytes and of values
    /// that the trie will hold.
    pub fn counters(&self) -> (counters: (usize, usize, usize))
        ensures
            counters.0 == self.tally(Tally::Nodes),
            counters.1 == self.tally(Tally::LabelBytes),
            counters.2 == self.tally(Tally::Values),
    {
        (self.nodes, self.labels, self.values)
    }

    /// Recursively finds the node that a particular label should be added to.
    ///
    /// If the label shares a common prefix with a child node of the current node, this
    /// will insert a new intermediate node if necessary (new parent for both that child
    /// node and the node to be added) and recurses. As it recurses, it will trim down the
    /// label accordingly to the path already traveled.
    ///
    /// If no nodes with common prefixes are found, then the current node is the one that
    /// the label should be added to.
    ///
    /// What is left of the label belongs below the node returned: no child of that node
    /// overlaps with it. Where the descent ends, and whether a node is split for it, is
    /// what `landing` tells of the tree and the label: a split makes one node more and
    /// takes one byte, the separator, from the labels. The node that a split makes has
    /// no value, and the node that was split as its only child. Whatever tree then takes
    /// the place of the node returned, under its label, is grafted into the current one at
    /// the path that the label was trimmed by.
    #[verifier::rlimit(40)]
    pub fn find_insertion_point<'a>(
        current: &'a mut BuilderNode<Value>,
        nodes: &mut usize,
        labels: &mut usize,
        label: &mut Vec<u8>,
    ) -> (ret: &'a mut BuilderNode<Value>)
        requires
            old(current).wf(),
            is_normalized(old(label)@),
            *old(nodes) < usize::MAX,
            *old(labels) >= old(current).below(Tally::LabelBytes),
        ensures
            ret.wf(),
            is_normalized(final(label)@),
            ret.clear_of(final(label)@),
            old(label)@ == join(consumed(old(label)@, final(label)@), final(label)@),
            *old(nodes) <= *final(nodes) <= *old(nodes) + 1,
            *final(labels) <= *old(labels),
            final(label)@ == old(current).landing(old(label)@).rest,
            ret.label() == old(current).landing(old(label)@).label,
            *final(nodes) == *old(nodes) + (if old(current).landing(old(label)@).split {
                1int
            } else {
                0int
            }),
            *final(labels) + (*final(nodes) - *old(nodes)) == *old(labels),
            old(current).landing(old(label)@).split ==> !ret.has_value() && ret.child_count() == 1
                && ret.child(0).label() == old(current).landing(old(label)@).tail,
            consumed(old(label)@, final(label)@).len() == 0 ==> *ret == *old(current)
                && *final(ret) == *final(current),
            consumed(old(label)@, final(label)@).len() > 0 ==> final(current).fit() == old(
                current,
            ).fit(),
            old(current).lean() ==> ret.lean() && (consumed(old(label)@, final(label)@).len() > 0
                ==> ret.nearly_fit()),
            old(current).lean() && final(ret).lean() && (consumed(
                old(label)@,
                final(label)@,
            ).len() > 0 ==> final(ret).fit()) ==> final(current).lean(),
            final(ret).label() == ret.label() && final(ret).wf() ==> grafted(
                *old(current),
                *final(current),
                consumed(old(label)@, final(label)@),
                *ret,
                *final(ret),
                *final(nodes) - *old(nodes),
                *final(labels) - *old(labels),
            ),
            final(ret).label() == ret.label() && final(ret).wf() ==> final(current).node_at(
                consumed(old(label)@, final(label)@),
            ) == Some(*final(ret)),
        decreases old(label)@.len(),
    {
        let ghost start = *current;
        let ghost full = label@;
        let count = current.children.len();
        let mut index: usize = 0;
        let mut length: usize = 0;
        while index < count && length == 0
            invariant
                *current == start,
                label@ == full,
                count == start.children@.len(),
                index <= count,
                length > 0 ==> index < count && is_common_prefix(
                    start.children@[index as int].label@,
                    full,
                    length as int,
                ) && forall|n: int|
                    is_common_prefix(start.children@[index as int].label@, full, n) ==> n
                        <= length,
                forall|j: int|
                    0 <= j < index ==> !overlap((#[trigger] start.children@[j]).label@, full),
            decreases count - index, (if length == 0 { 1int } else { 0int }),
        {
            length =
            common_prefix_length(current.children[index].label.as_slice(), label.as_slice());
            if length == 0 {
                index += 1;
            }
        }
        if length == 0 {
            proof {
                assert(start.clear_of(full));
                start.lemma_landing_here(full);
                assert(consumed(full, full) =~= Seq::<u8>::empty());
                assert forall|after: BuilderNode<Value>|
                    after.label@ == start.label@ && after.wf() implies #[trigger] grafted(
                    start,
                    after,
                    Seq::empty(),
                    start,
                    after,
                    0,
                    0,
                ) by {
                    start.lemma_graft_self(after);
                }
            }
            return current;
        }
        let ghost child = start.children@[index as int];
        let ghost branch = child.label@;
        let ghost head = full.subrange(0, length as int);
        let cut: usize = if length < label.len() {
            length + 1
        } else {
            length
        };
        let rest = label.split_off(cut);
        *label = rest;
        let ghost remainder = label@;
        proof {
            assert(full.subrange(0, length as int) == branch.subrange(0, length as int));
            assert(start.children@[index as int].wf());
            assert(branch.len() > 0);
            if length < full.len() {
                lemma_split_label(full, length as int);
            } else {
                assert(head =~= full);
            }
            assert(is_path_prefix(head, full));
            assert(remainder =~= path_suffix(full, head));
            lemma_join_suffix(head, full);
            assert(consumed(full, remainder) =~= head);
            BuilderNode::lemma_total_bound(start.children@, index as int, Tally::LabelBytes);
            assert(remainder =~= past(full, length as int));
            assert(is_longest_common(branch, full, length as int));
            assert(meets(start.children@, index as int, full));
            start.lemma_landing_below(index as int, full, length as int);
        }
        if length < current.children[index].label.len() {
            {
                let node = &mut current.children[index];
                let tail = node.label.split_off(length + 1);
                node.label.pop();
                let mut lower = BuilderNode { label: tail, children: Vec::new(), value: None };
                std::mem::swap(&mut lower.children, &mut node.children);
                std::mem::swap(&mut lower.value, &mut node.value);
                node.children.push(lower);
            }
            *nodes += 1;

            // Splitting the node label in two results in one character less (separator)
            *labels -= 1;

            let ghost split = *current;
            let ghost upper = split.children@[index as int];
            proof {
                lemma_split_label(branch, length as int);
                assert(upper.label@ =~= branch.subrange(0, length as int));
                start.lemma_split(split, index as int, length as int, upper);
                if length < full.len() {
                    lemma_apart_past_longest(branch, full, length as int);
                } else {
                    assert forall|k: int| !is_common_prefix(
                        upper.children@[0].label@,
                        remainder,
                        k,
                    ) || k <= 0 by {}
                }
                assert(upper.clear_of(remainder));
                if start.lean() {
                    assert(child.fit() && child.lean());
                    child.lemma_lean_split(upper);
                    assert forall|after: BuilderNode<Value>, filled: BuilderNode<Value>|
                        after.children@ == split.children@.update(index as int, filled)
                            && filled.fit() && #[trigger] filled.lean() implies #[trigger] after.lean() by {
                        assert forall|k: int|
                            0 <= k < split.children@.len() && k != index implies (
                        #[trigger] split.children@[k]).fit() && split.children@[k].lean() by {
                            assert(start.children@[k].fit());
                        }
                        split.lemma_lean_replace(after, index as int, filled);
                    }
                }
                assert(split.fit() == start.fit());
                assert forall|after: BuilderNode<Value>, path: Seq<u8>, filled: BuilderNode<Value>|
                    after.label@ == split.label@ && after.value == split.value && after.children@
                        == split.children@.update(index as int, filled) && #[trigger] filled.wf()
                        && filled.label@ == upper.label@ && path == head implies (
                #[trigger] after.node_at(path)) == Some(filled) by {
                    split.lemma_graft_child(after, index as int, filled);
                }
                assert forall|
                    after: BuilderNode<Value>,
                    path: Seq<u8>,
                    hole: BuilderNode<Value>,
                    filled: BuilderNode<Value>,
                    more: int,
                    less: int,
                |
                    after.label@ == split.label@ && after.value == split.value && after.children@
                        == split.children@.update(index as int, filled) && filled.wf()
                        && filled.label@ == upper.label@ && path == head && hole == upper && more
                        == 1 && less == -1 implies #[trigger] grafted(
                    start,
                    after,
                    path,
                    hole,
                    filled,
                    more,
                    less,
                ) by {
                    split.lemma_graft_child(after, index as int, filled);
                    start.lemma_graft_rebase(split, after, path, hole, filled, 1, -1);
                }
            }
            &mut current.children[index]
        } else {
            proof {
                assert(head =~= branch);
                assert forall|
                    after: BuilderNode<Value>,
                    filled: BuilderNode<Value>,
                    inner_path: Seq<u8>,
                    path: Seq<u8>,
                |
                    filled.wf() && filled.label@ == child.label@ && after.label@ == start.label@
                        && after.value == start.value && after.children@
                        == start.children@.update(index as int, filled) && path == join(
                        branch,
                        inner_path,
                    ) implies (#[trigger] after.node_at(path)) == #[trigger] filled.node_at(
                    inner_path,
                ) by {
                    start.lemma_graft_child(after, index as int, filled);
                    after.lemma_node_at_join(branch, inner_path, filled);
                }
                if start.lean() {
                    assert(child.fit() && child.lean());
                    assert forall|after: BuilderNode<Value>, filled: BuilderNode<Value>|
                        after.children@ == start.children@.update(index as int, filled)
                            && filled.fit() && #[trigger] filled.lean() implies #[trigger] after.lean() by {
                        assert forall|k: int|
                            0 <= k < start.children@.len() && k != index implies (
                        #[trigger] start.children@[k]).fit() && start.children@[k].lean() by {}
                        start.lemma_lean_replace(after, index as int, filled);
                    }
                }
                assert forall|
                    after: BuilderNode<Value>,
                    filled: BuilderNode<Value>,
                    inner_path: Seq<u8>,
                    hole: BuilderNode<Value>,
                    inner_filled: BuilderNode<Value>,
                    more: int,
                    less: int,
                    path: Seq<u8>,
                    same_hole: BuilderNode<Value>,
                    same_filled: BuilderNode<Value>,
                    same_more: int,
                    same_less: int,
                |
                    #[trigger] grafted(child, filled, inner_path, hole, inner_filled, more, less)
                        && after.label@ == start.label@ && after.value == start.value
                        && after.children@ == start.children@.update(index as int, filled) && path
                        == join(branch, inner_path) && same_hole == hole && same_filled
                        == inner_filled && same_more == more && same_less
                        == less implies #[trigger] grafted(
                    start,
                    after,
                    path,
                    same_hole,
                    same_filled,
                    same_more,
                    same_less,
                ) by {
                    start.lemma_graft_child(after, index as int, filled);
                    start.lemma_graft_compose(
                        after,
                        branch,
                        child,
                        filled,
                        0,
                        0,
                        inner_path,
                        hole,
                        inner_filled,
                        more,
                        less,
                    );
                }
            }
            let found = Self::find_insertion_point(
                &mut current.children[index],
                nodes,
                labels,
                label,
            );
            proof {
                lemma_consumed_join(full, branch, remainder, label@);
            }
            found
        }
    }

    /// Adds a value for the given label. Will return `true` if an existing value was
    /// overwritten.
    ///
    /// The label is expected to be normalized: no separator characters at the beginning or
    /// end, and always only one separator character used to separate segments.
    ///
    /// The counter of values grows by one unless a value was overwritten. The counter of
    /// nodes grows by one for the node that a split makes, where a trie of the labels
    /// pushed so far has no node for the part of the label that goes along with them, and
    /// by one for the leaf that holds what is left of the label, where anything is left.
    /// The counter of label bytes grows by the length of what is left, less the separator
    /// that a split takes.
    #[verifier::rlimit(40)]
    pub fn push(&mut self, label: Vec<u8>, value: Value) -> (overwritten: bool)
        requires
            old(self).wf(),
            is_normalized(label@),
            old(self).has_room(label@.len()),
        ensures
            final(self).wf(),
            final(self)@ == old(self)@.insert(label@, value),
            overwritten == old(self)@.contains_key(label@),
            final(self).tally(Tally::Nodes) <= old(self).tally(Tally::Nodes) + 2,
            final(self).tally(Tally::LabelBytes) <= old(self).tally(Tally::LabelBytes) + label@.len(),
            final(self).tally(Tally::Values) <= old(self).tally(Tally::Values) + 1,
            final(self).tally(Tally::Values) == old(self).tally(Tally::Values) + (if overwritten {
                0int
            } else {
                1int
            }),
            final(self).tally(Tally::Nodes) == old(self).tally(Tally::Nodes) + (if old(
                self,
            ).landing(label@).split {
                1int
            } else {
                0int
            }) + (if old(self).landing(label@).rest.len() > 0 {
                1int
            } else {
                0int
            }),
            final(self).tally(Tally::LabelBytes) + (if old(self).landing(label@).split {
                1int
            } else {
                0int
            }) == old(self).tally(Tally::LabelBytes) + old(self).landing(label@).rest.len(),
            overwritten ==> old(self).landing(label@).rest.len() == 0,
            is_depth(
                old(self)@,
                label@,
                consumed(label@, old(self).landing(label@).rest).len() as int,
            ),
            forall|depth: int| #[trigger]
                is_depth(old(self)@, label@, depth) ==> final(self).tally(Tally::Nodes) == old(
                    self,
                ).tally(Tally::Nodes) + (if is_node(old(self)@, label@.subrange(0, depth)) {
                    0int
                } else {
                    1int
                }) + (if rest_at(label@, depth).len() > 0 {
                    1int
                } else {
                    0int
                }) && final(self).tally(Tally::LabelBytes) + (if is_node(
                    old(self)@,
                    label@.subrange(0, depth),
                ) {
                    0int
                } else {
                    1int
                }) == old(self).tally(Tally::LabelBytes) + rest_at(label@, depth).len(),
    {
        let ghost builder = *self;
        proof {
            builder.lemma_landing_depth(label@);
            assert forall|depth: int| #[trigger] is_depth(builder@, label@, depth) implies builder.landing(
                label@,
            ).rest == rest_at(label@, depth) && builder.landing(label@).split == !is_node(
                builder@,
                label@.subrange(0, depth),
            ) by {
                builder.lemma_landing(label@, depth);
            }
        }
        let ghost before = self.root;
        let ghost key = label@;
        let ghost nodes = self.nodes;
        let ghost labels = self.labels;
        let mut label = label;
        let node = Self::find_insertion_point(
            &mut self.root,
            &mut self.nodes,
            &mut self.labels,
            &mut label,
        );
        let ghost hole = *node;
        let ghost rest = label@;
        let ghost path = consumed(key, rest);
        let overwritten = if label.is_empty() {
            // Exact match, replace the value for this node
            let had_value = node.value.is_some();
            if !had_value {
                self.values += 1;
            }
            node.value = Some(value);
            proof {
                hole.lemma_set_value(*node, value);
                assert(node.fit());
                assert(node.lean()) by {
                    assert forall|k: int| 0 <= k < node.children@.len() implies (
                    #[trigger] node.children@[k]).fit() && node.children@[k].lean() by {
                        assert(hole.children@[k].fit());
                    }
                }
            }
            had_value
        } else {
            // Insert new node as child of the current one
            self.nodes += 1;
            self.values += 1;
            self.labels += label.len();
            let leaf = BuilderNode { label, children: Vec::new(), value: Some(value) };
            let ghost added = leaf;
            node.children.push(leaf);
            proof {
                hole.lemma_add_leaf(*node, added, value);
                hole.lemma_clear_no_entry(rest);
                assert(added.fit() && added.lean());
                assert(node.lean()) by {
                    assert forall|k: int| 0 <= k < node.children@.len() implies (
                    #[trigger] node.children@[k]).fit() && node.children@[k].lean() by {
                        if k < hole.children@.len() {
                            assert(hole.children@[k].fit());
                        }
                    }
                }
                assert(path.len() > 0 ==> node.fit());
            }
            false
        };
        let ghost filled = *node;
        proof {
            let after = self.root;
            assert(grafted(before, after, path, hole, filled, self.nodes - nodes
                - (if rest.len() == 0 { 0int } else { 1int }), self.labels - labels - rest.len()));
            assert forall|key: Seq<u8>| #[trigger]
                filled.entry(key) == (if key == rest {
                    Some(value)
                } else {
                    hole.entry(key)
                }) by {
                if rest.len() == 0 && key.len() == 0 {
                    assert(key =~= rest);
                }
            }
            before.lemma_graft_insert(
                after,
                path,
                hole,
                filled,
                self.nodes - nodes - (if rest.len() == 0 { 0int } else { 1int }),
                self.labels - labels - rest.len(),
                rest,
                value,
            );
            assert(final(self)@ =~= old(self)@.insert(key, value));
            assert(final(self)@.dom() =~= old(self)@.dom().insert(key));
        }
        overwritten
    }

    /// Adds a value for the given label where the counters have room for it, and tells
    /// whether an existing value was overwritten. Where they have no room the builder
    /// stays as it is and nothing is returned.
    pub fn try_push(&mut self, label: Vec<u8>, value: Value) -> (overwritten: Option<bool>)
        requires
            old(self).wf(),
            is_normalized(label@),
        ensures
            final(self).wf(),
            old(self).has_room(label@.len()) ==> final(self)@ == old(self)@.insert(label@, value)
                && overwritten == Some(old(self)@.contains_key(label@)),
            !old(self).has_room(label@.len()) ==> *final(self) == *old(self)
                && overwritten is None,
            old(self).has_room(label@.len()) ==> final(self).tally(Tally::Values) == old(
                self,
            ).tally(Tally::Values) + (if overwritten == Some(true) {
                0int
            } else {
                1int
            }) && final(self).tally(Tally::Nodes) == old(self).tally(Tally::Nodes) + (if old(
                self,
            ).landing(label@).split {
                1int
            } else {
                0int
            }) + (if old(self).landing(label@).rest.len() > 0 {
                1int
            } else {
                0int
            }) && final(self).tally(Tally::LabelBytes) + (if old(self).landing(label@).split {
                1int
            } else {
                0int
            }) == old(self).tally(Tally::LabelBytes) + old(self).landing(label@).rest.len(),
            final(self).tally(Tally::Nodes) <= old(self).tally(Tally::Nodes) + 2,
            final(self).tally(Tally::LabelBytes) <= old(self).tally(Tally::LabelBytes) + label@.len(),
            final(self).tally(Tally::Values) <= old(self).tally(Tally::Values) + 1,
    {
        if self.nodes <= usize::MAX - 2 && self.labels <= usize::MAX - label.len() && self.values
            < usize::MAX {
            Some(self.push(label, value))
        } else {
            None
        }
    }
}

/// Overwriting: a label that is pushed a second time is found to have a value, and the
/// value pushed last is the one that stays, as if the first had never been pushed.
pub proof fn law_overwrite<Value>(
    map: Map<Seq<u8>, Value>,
    label: Seq<u8>,
    first: Value,
    second: Value,
)
    ensures
        map.insert(label, first).contains_key(label),
        map.insert(label, first).insert(label, second)[label] == second,
        map.insert(label, first).insert(label, second) == map.insert(label, second),
{
    assert(map.insert(label, first).insert(label, second) =~= map.insert(label, second));
}

} // verus!
