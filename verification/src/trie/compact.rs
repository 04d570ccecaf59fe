//! Setting up a trie: compaction of the builder tree into the three vectors.

use super::{
    among, apart, child_count, first_child, parted, stores, BuilderNode, Node, Tally, Trie,
    TrieBuilder,
};
use crate::label::{
    is_common_prefix, lemma_sorts_before_transitive, lemma_sorts_total, overlap, precedes,
    sorts_before,
};
use vstd::prelude::*;

verus! {

/// Whether `short` is the beginning of `long`.
pub open spec fn extends<T>(long: Seq<T>, short: Seq<T>) -> bool {
    short.len() <= long.len() && long.subrange(0, short.len() as int) == short
}

/// What the vectors store at a node stays stored when they grow, and when nodes
/// change that are neither the node nor among its children.
proof fn lemma_stores_frame<Value>(
    nodes: Seq<Node>,
    labels: Seq<u8>,
    values: Seq<Value>,
    models: Seq<BuilderNode<Value>>,
    grown_nodes: Seq<Node>,
    grown_labels: Seq<u8>,
    grown_values: Seq<Value>,
    grown_models: Seq<BuilderNode<Value>>,
    index: int,
    low: int,
    lower: int,
)
    requires
        stores(nodes, labels, values, models, index, low),
        lower <= low,
        0 <= index < nodes.len(),
        nodes.len() == models.len(),
        nodes.len() <= grown_nodes.len(),
        grown_nodes.len() == grown_models.len(),
        grown_nodes[index] == nodes[index],
        grown_models[index] == models[index],
        forall|k: int| low <= k < nodes.len() ==> grown_models[k] == models[k],
        extends(grown_labels, labels),
        extends(grown_values, values),
    ensures
        stores(grown_nodes, grown_labels, grown_values, grown_models, index, lower),
{
    reveal(stores);
    let node = nodes[index];
    let model = models[index];
    assert(grown_labels.subrange(node.label.start as int, node.label.end as int)
        =~= labels.subrange(node.label.start as int, node.label.end as int)) by {
        assert forall|k: int| 0 <= k < labels.len() implies grown_labels[k] == labels[k] by {
            assert(grown_labels.subrange(0, labels.len() as int)[k] == labels[k]);
        }
    }
    if let Some(at) = node.value {
        if model.value is Some {
            assert(grown_values.subrange(0, values.len() as int)[at as int] == values[at as int]);
        }
    }
    assert forall|i: int| 0 <= i < model.children@.len() implies among(
        grown_models,
        node.children.start as int,
        node.children.end as int,
        #[trigger] model.children@[i],
    ) by {
        assert(among(
            models,
            node.children.start as int,
            node.children.end as int,
            model.children@[i],
        ));
        let at = choose|at: int|
            node.children.start <= at < node.children.end && 0 <= at < models.len()
                && #[trigger] models[at] == model.children@[i];
        assert(grown_models[at] == models[at]);
    }
    assert forall|at: int| node.children.start <= at < node.children.end implies among(
        model.children@,
        0,
        model.children@.len() as int,
        #[trigger] grown_models[at],
    ) by {
        assert(grown_models[at] == models[at]);
    }
    assert forall|a: int, b: int|
        node.children.start <= a < b < node.children.end implies !sorts_before(
        (#[trigger] grown_models[b]).label@,
        (#[trigger] grown_models[a]).label@,
    ) by {
        assert(grown_models[a] == models[a]);
        assert(grown_models[b] == models[b]);
    }
}

/// What the vectors store at a node they store with any lower bound on its children.
proof fn lemma_stores_widen<Value>(
    nodes: Seq<Node>,
    labels: Seq<u8>,
    values: Seq<Value>,
    models: Seq<BuilderNode<Value>>,
    index: int,
    low: int,
    lower: int,
)
    requires
        stores(nodes, labels, values, models, index, low),
        lower <= low,
    ensures
        stores(nodes, labels, values, models, index, lower),
{
    reveal(stores);
}

/// The vectors store a builder node at a node that has its label and value, and whose
/// children are the nodes that were set up from the children of the builder node, sorted
/// by their labels.
proof fn lemma_stores_parent<Value>(
    nodes: Seq<Node>,
    labels: Seq<u8>,
    values: Seq<Value>,
    models: Seq<BuilderNode<Value>>,
    index: int,
    first: int,
    tree: BuilderNode<Value>,
    sorted: Seq<BuilderNode<Value>>,
)
    requires
        0 <= index < first,
        first + sorted.len() <= nodes.len(),
        nodes.len() == models.len(),
        models[index] == tree,
        nodes[index].label.start <= nodes[index].label.end <= labels.len(),
        labels.subrange(nodes[index].label.start as int, nodes[index].label.end as int)
            == tree.label@,
        match tree.value {
            None => nodes[index].value is None,
            Some(value) => nodes[index].value matches Some(at) && at < values.len()
                && values[at as int] == value,
        },
        nodes[index].children.start == first,
        nodes[index].children.end == first + sorted.len(),
        sorted.len() == tree.children@.len(),
        forall|b: int| 0 <= b < sorted.len() ==> #[trigger] models[first + b] == sorted[b],
        forall|i: int|
            0 <= i < sorted.len() ==> among(
                tree.children@,
                0,
                tree.children@.len() as int,
                #[trigger] sorted[i],
            ),
        forall|i: int|
            0 <= i < tree.children@.len() ==> among(
                sorted,
                0,
                sorted.len() as int,
                #[trigger] tree.children@[i],
            ),
        in_order(sorted),
    ensures
        stores(nodes, labels, values, models, index, first),
{
    reveal(stores);
    let count = sorted.len() as int;
    assert forall|i: int| 0 <= i < tree.children@.len() implies among(
        models,
        first,
        first + count,
        #[trigger] tree.children@[i],
    ) by {
        assert(among(sorted, 0, sorted.len() as int, tree.children@[i]));
        let at = choose|at: int|
            0 <= at < sorted.len() && 0 <= at < sorted.len() && #[trigger] sorted[at]
                == tree.children@[i];
        assert(models[first + at] == sorted[at]);
    }
    assert forall|at: int| first <= at < first + count implies among(
        tree.children@,
        0,
        tree.children@.len() as int,
        #[trigger] models[at],
    ) by {
        assert(models[first + (at - first)] == sorted[at - first]);
        assert(among(tree.children@, 0, tree.children@.len() as int, sorted[at - first]));
    }
    assert forall|a: int, b: int| first <= a < b < first + count implies !sorts_before(
        (#[trigger] models[b]).label@,
        (#[trigger] models[a]).label@,
    ) by {
        assert(models[first + (a - first)] == sorted[a - first]);
        assert(models[first + (b - first)] == sorted[b - first]);
    }
}

/// Whether none of the nodes has an empty label, and no two of their labels begin with
/// the same segment.
spec fn unlike<Value>(nodes: Seq<BuilderNode<Value>>) -> bool {
    &&& forall|i: int| 0 <= i < nodes.len() ==> (#[trigger] nodes[i]).label@.len() > 0
    &&& forall|i: int, j: int|
        0 <= i < nodes.len() && 0 <= j < nodes.len() && i != j ==> !overlap(
            (#[trigger] nodes[i]).label@,
            (#[trigger] nodes[j]).label@,
        )
}

/// Whether no label of the one nodes begins with the same segment as one of the others.
spec fn across<Value>(one: Seq<BuilderNode<Value>>, others: Seq<BuilderNode<Value>>) -> bool {
    forall|i: int, j: int|
        0 <= i < one.len() && 0 <= j < others.len() ==> !overlap(
            (#[trigger] one[i]).label@,
            (#[trigger] others[j]).label@,
        ) && !overlap(others[j].label@, one[i].label@)
}

/// The children of a well-formed node are unlike each other.
proof fn lemma_apart_unlike<Value>(nodes: Seq<BuilderNode<Value>>)
    requires
        apart(nodes),
    ensures
        unlike(nodes),
{
    assert forall|i: int, j: int|
        0 <= i < nodes.len() && 0 <= j < nodes.len() && i != j implies !overlap(
        (#[trigger] nodes[i]).label@,
        (#[trigger] nodes[j]).label@,
    ) by {
        if i < j {
            assert(!overlap(nodes[i].label@, nodes[j].label@));
        } else {
            assert(!overlap(nodes[j].label@, nodes[i].label@));
            super::laws::lemma_overlap_symmetric(nodes[i].label@, nodes[j].label@);
        }
    }
}

/// Moving one node from nodes that are unlike each other to others that are unlike them
/// leaves all of them unlike each other.
proof fn lemma_unlike_step<Value>(
    done: Seq<BuilderNode<Value>>,
    before: Seq<BuilderNode<Value>>,
    best: int,
)
    requires
        unlike(done),
        unlike(before),
        across(done, before),
        0 <= best < before.len(),
    ensures
        unlike(done.push(before[best])),
        unlike(before.remove(best)),
        across(done.push(before[best]), before.remove(best)),
{
    let sorted = done.push(before[best]);
    let rest = before.remove(best);
    let last = done.len() as int;
    assert forall|i: int| 0 <= i < sorted.len() implies (#[trigger] sorted[i]).label@.len() > 0 by {
        if i < last {
            assert(done[i].label@.len() > 0);
        } else {
            assert(before[best].label@.len() > 0);
        }
    }
    assert forall|i: int, j: int|
        0 <= i < sorted.len() && 0 <= j < sorted.len() && i != j implies !overlap(
        (#[trigger] sorted[i]).label@,
        (#[trigger] sorted[j]).label@,
    ) by {
        if i < last && j < last {
            assert(!overlap(done[i].label@, done[j].label@));
        } else if i < last {
            assert(!overlap(done[i].label@, before[best].label@));
        } else {
            assert(!overlap(done[j].label@, before[best].label@));
            assert(!overlap(before[best].label@, done[j].label@));
        }
    }
    assert forall|i: int| 0 <= i < rest.len() implies (#[trigger] rest[i]).label@.len() > 0 by {
        let from = if i < best {
            i
        } else {
            i + 1
        };
        assert(rest[i] == before[from]);
        assert(before[from].label@.len() > 0);
    }
    assert forall|i: int, j: int|
        0 <= i < rest.len() && 0 <= j < rest.len() && i != j implies !overlap(
        (#[trigger] rest[i]).label@,
        (#[trigger] rest[j]).label@,
    ) by {
        let from = if i < best {
            i
        } else {
            i + 1
        };
        let other = if j < best {
            j
        } else {
            j + 1
        };
        assert(rest[i] == before[from]);
        assert(rest[j] == before[other]);
        assert(!overlap(before[from].label@, before[other].label@));
    }
    assert forall|i: int, j: int| 0 <= i < sorted.len() && 0 <= j < rest.len() implies !overlap(
        (#[trigger] sorted[i]).label@,
        (#[trigger] rest[j]).label@,
    ) && !overlap(rest[j].label@, sorted[i].label@) by {
        let other = if j < best {
            j
        } else {
            j + 1
        };
        assert(rest[j] == before[other]);
        if i < last {
            assert(!overlap(done[i].label@, before[other].label@));
        } else {
            assert(!overlap(before[best].label@, before[other].label@));
            assert(!overlap(before[other].label@, before[best].label@));
        }
    }
}

/// Nodes that are unlike each other and stand in the order of their labels stand in
/// their strict order.
proof fn lemma_strict_order<Value>(sorted: Seq<BuilderNode<Value>>, a: int, b: int)
    requires
        unlike(sorted),
        in_order(sorted),
        0 <= a < b < sorted.len(),
    ensures
        sorts_before(sorted[a].label@, sorted[b].label@),
        !overlap(sorted[a].label@, sorted[b].label@),
{
    let x = sorted[a].label@;
    let y = sorted[b].label@;
    assert(!overlap(x, y));
    assert(!sorts_before(y, x));
    if x == y {
        assert(x.subrange(0, x.len() as int) =~= y.subrange(0, x.len() as int));
        assert(is_common_prefix(x, y, x.len() as int));
    }
    lemma_sorts_total(x, y);
}

/// The children of a node stay parted when the vectors grow, and when nodes change that
/// are neither the node nor among its children.
proof fn lemma_parted_frame<Value>(
    nodes: Seq<Node>,
    labels: Seq<u8>,
    values: Seq<Value>,
    models: Seq<BuilderNode<Value>>,
    grown_nodes: Seq<Node>,
    grown_models: Seq<BuilderNode<Value>>,
    index: int,
    low: int,
)
    requires
        stores(nodes, labels, values, models, index, low),
        parted(nodes, models, index),
        grown_nodes[index] == nodes[index],
        forall|k: int| low <= k < nodes.len() ==> grown_models[k] == models[k],
    ensures
        parted(grown_nodes, grown_models, index),
{
    reveal(stores);
    assert forall|a: int, b: int|
        grown_nodes[index].children.start <= a < b
            < grown_nodes[index].children.end implies sorts_before(
        (#[trigger] grown_models[a]).label@,
        (#[trigger] grown_models[b]).label@,
    ) && !overlap(grown_models[a].label@, grown_models[b].label@) by {
        assert(grown_models[a] == models[a]);
        assert(grown_models[b] == models[b]);
    }
}

/// Whether the nodes stand in the order of their labels.
pub closed spec fn in_order<Value>(nodes: Seq<BuilderNode<Value>>) -> bool {
    forall|a: int, b: int|
        0 <= a < b < nodes.len() ==> !sorts_before(
            (#[trigger] nodes[b]).label@,
            (#[trigger] nodes[a]).label@,
        )
}

/// The index of a node whose label none of the others comes before.
fn first_by_label<Value>(nodes: &Vec<BuilderNode<Value>>) -> (best: usize)
    requires
        nodes@.len() > 0,
    ensures
        best < nodes@.len(),
        forall|k: int|
            0 <= k < nodes@.len() ==> !sorts_before(
                (#[trigger] nodes@[k]).label@,
                nodes@[best as int].label@,
            ),
{
    let mut best: usize = 0;
    let mut i: usize = 1;
    while i < nodes.len()
        invariant
            best < i <= nodes@.len(),
            forall|k: int|
                0 <= k < i ==> !sorts_before(
                    (#[trigger] nodes@[k]).label@,
                    nodes@[best as int].label@,
                ),
        decreases nodes@.len() - i,
    {
        if precedes(nodes[i].label.as_slice(), nodes[best].label.as_slice()) {
            proof {
                assert forall|k: int| 0 <= k < i + 1 implies !sorts_before(
                    (#[trigger] nodes@[k]).label@,
                    nodes@[i as int].label@,
                ) by {
                    if sorts_before(nodes@[k].label@, nodes@[i as int].label@) {
                        lemma_sorts_before_transitive(
                            nodes@[k].label@,
                            nodes@[i as int].label@,
                            nodes@[best as int].label@,
                        );
                    }
                }
            }
            best = i;
        }
        i += 1;
    }
    best
}

/// Sorts nodes by their labels.
fn sort_by_label<Value>(children: Vec<BuilderNode<Value>>) -> (sorted: Vec<BuilderNode<Value>>)
    ensures
        sorted@.len() == children@.len(),
        forall|i: int|
            0 <= i < sorted@.len() ==> among(
                children@,
                0,
                children@.len() as int,
                #[trigger] sorted@[i],
            ),
        forall|i: int|
            0 <= i < children@.len() ==> among(
                sorted@,
                0,
                sorted@.len() as int,
                #[trigger] children@[i],
            ),
        forall|what: Tally| #[trigger]
            BuilderNode::total(sorted@, what) == BuilderNode::total(children@, what),
        in_order(sorted@),
        unlike(children@) ==> unlike(sorted@),
{
    let ghost all = children@;
    let mut rest = children;
    let mut sorted: Vec<BuilderNode<Value>> = Vec::new();
    proof {
        assert forall|what: Tally| #[trigger]
            BuilderNode::total(sorted@, what) + BuilderNode::total(rest@, what)
                == BuilderNode::total(all, what) by {}
    }
    while rest.len() > 0
        invariant
            sorted@.len() + rest@.len() == all.len(),
            forall|i: int|
                0 <= i < sorted@.len() ==> among(all, 0, all.len() as int, #[trigger] sorted@[i]),
            forall|i: int|
                0 <= i < rest@.len() ==> among(all, 0, all.len() as int, #[trigger] rest@[i]),
            forall|i: int|
                0 <= i < all.len() ==> among(sorted@, 0, sorted@.len() as int, #[trigger] all[i])
                    || among(rest@, 0, rest@.len() as int, all[i]),
            forall|what: Tally| #[trigger]
                BuilderNode::total(sorted@, what) + BuilderNode::total(rest@, what)
                    == BuilderNode::total(all, what),
            in_order(sorted@),
            forall|a: int, b: int|
                0 <= a < sorted@.len() && 0 <= b < rest@.len() ==> !sorts_before(
                    (#[trigger] rest@[b]).label@,
                    (#[trigger] sorted@[a]).label@,
                ),
            unlike(all) ==> unlike(sorted@) && unlike(rest@) && across(sorted@, rest@),
        decreases rest@.len(),
    {
        let ghost before = rest@;
        let ghost done = sorted@;
        let best = first_by_label(&rest);
        let node = rest.remove(best);
        sorted.push(node);
        proof {
            if unlike(all) {
                lemma_unlike_step(done, before, best as int);
            }
            let last = done.len() as int;
            assert forall|i: int| 0 <= i < sorted@.len() implies among(
                all,
                0,
                all.len() as int,
                #[trigger] sorted@[i],
            ) by {
                if i < last {
                    assert(sorted@[i] == done[i]);
                } else {
                    assert(sorted@[i] == before[best as int]);
                }
            }
            assert forall|i: int| 0 <= i < rest@.len() implies among(
                all,
                0,
                all.len() as int,
                #[trigger] rest@[i],
            ) by {
                if i < best {
                    assert(rest@[i] == before[i]);
                } else {
                    assert(rest@[i] == before[i + 1]);
                }
            }
            assert forall|i: int| 0 <= i < all.len() implies among(
                sorted@,
                0,
                sorted@.len() as int,
                #[trigger] all[i],
            ) || among(rest@, 0, rest@.len() as int, all[i]) by {
                if among(done, 0, done.len() as int, all[i]) {
                    let at = choose|at: int|
                        0 <= at < done.len() && 0 <= at < done.len() && #[trigger] done[at]
                            == all[i];
                    assert(sorted@[at] == all[i]);
                } else {
                    let at = choose|at: int|
                        0 <= at < before.len() && 0 <= at < before.len() && #[trigger] before[at]
                            == all[i];
                    if at < best {
                        assert(rest@[at] == all[i]);
                    } else if at == best {
                        assert(sorted@[last] == all[i]);
                    } else {
                        assert(rest@[at - 1] == all[i]);
                    }
                }
            }
            assert forall|what: Tally| #[trigger]
                BuilderNode::total(sorted@, what) + BuilderNode::total(rest@, what)
                    == BuilderNode::total(all, what) by {
                BuilderNode::lemma_total_remove(before, best as int, what);
                BuilderNode::lemma_total_push(done, before[best as int], what);
                assert(BuilderNode::total(done, what) + BuilderNode::total(before, what)
                    == BuilderNode::total(all, what));
            }
            assert(in_order(sorted@)) by {
                assert forall|a: int, b: int| 0 <= a < b < sorted@.len() implies !sorts_before(
                    (#[trigger] sorted@[b]).label@,
                    (#[trigger] sorted@[a]).label@,
                ) by {
                    assert(sorted@[a] == done[a]);
                    if b < last {
                        assert(sorted@[b] == done[b]);
                    } else {
                        assert(sorted@[b] == before[best as int]);
                    }
                }
            }
            assert forall|a: int, b: int|
                0 <= a < sorted@.len() && 0 <= b < rest@.len() implies !sorts_before(
                (#[trigger] rest@[b]).label@,
                (#[trigger] sorted@[a]).label@,
            ) by {
                let from = if b < best {
                    b
                } else {
                    b + 1
                };
                assert(rest@[b] == before[from]);
                if a < last {
                    assert(sorted@[a] == done[a]);
                } else {
                    assert(sorted@[a] == before[best as int]);
                }
            }
        }
    }
    proof {
        assert(rest@ =~= Seq::<BuilderNode<Value>>::empty());
        assert forall|what: Tally| #[trigger]
            BuilderNode::total(sorted@, what) == BuilderNode::total(all, what) by {
            assert(BuilderNode::total(sorted@, what) + BuilderNode::total(rest@, what)
                == BuilderNode::total(all, what));
        }
        assert forall|i: int| 0 <= i < all.len() implies among(
            sorted@,
            0,
            sorted@.len() as int,
            #[trigger] all[i],
        ) by {
            assert(!among(rest@, 0, rest@.len() as int, all[i]));
        }
    }
    sorted
}

impl<Value> TrieBuilder<Value> {
    /// Pushes an empty entry into the nodes vector.
    ///
    /// This is used to allocate space for the node, so that child nodes are always stored
    /// consecutively. The values are adjusted by `into_trie_node` later.
    pub fn push_trie_node(nodes: &mut Vec<Node>)
        ensures
            final(nodes)@ == old(nodes)@.push(Node::blank()),
    {
        nodes.push(Node { label: 0..0, value: None, children: 0..0 });
    }

    /// Sets up an entry in the nodes vector.
    ///
    /// This will transfer data from a builder node to the trie node identified via index.
    /// It will also recurse to make sure child nodes of the current node are transferred
    /// as well: they stand one behind the other from the end of the vector on, as it is
    /// when this is called, in the strict order of their labels. `models` records which
    /// builder node each trie node was set up from.
    pub fn into_trie_node(
        current: BuilderNode<Value>,
        index: usize,
        nodes: &mut Vec<Node>,
        labels: &mut Vec<u8>,
        values: &mut Vec<Value>,
        models: &mut Ghost<Seq<BuilderNode<Value>>>,
    )
        requires
            index < old(nodes)@.len(),
            old(nodes)@[index as int] == Node::blank(),
            old(models)@.len() == old(nodes)@.len(),
        ensures
            final(models)@.len() == final(nodes)@.len(),
            final(nodes)@.len() + 1 == old(nodes)@.len() + current.size(Tally::Nodes),
            final(labels)@.len() == old(labels)@.len() + current.size(Tally::LabelBytes),
            final(values)@.len() == old(values)@.len() + current.size(Tally::Values),
            extends(final(labels)@, old(labels)@),
            extends(final(values)@, old(values)@),
            forall|k: int|
                0 <= k < old(nodes)@.len() && k != index ==> final(nodes)@[k] == old(nodes)@[k]
                    && final(models)@[k] == old(models)@[k],
            final(models)@[index as int] == current,
            first_child(final(nodes)@, index as int) == old(nodes)@.len(),
            current.wf() ==> forall|k: int|
                k == index || old(nodes)@.len() <= k < final(nodes)@.len() ==> #[trigger] parted(
                    final(nodes)@,
                    final(models)@,
                    k,
                ),
            child_count(final(nodes)@, index as int) == current.child_count(),
            forall|k: int|
                k == index || old(nodes)@.len() <= k < final(nodes)@.len() ==> #[trigger] stores(
                    final(nodes)@,
                    final(labels)@,
                    final(values)@,
                    final(models)@,
                    k,
                    old(nodes)@.len() as int,
                ),
        decreases current.size(Tally::Nodes),
    {
        let ghost tree = current;
        let ghost old_nodes = nodes@;
        let ghost old_labels = labels@;
        let ghost old_values = values@;
        let ghost old_models = models@;
        let BuilderNode { label, children, value } = current;
        let ghost unsorted = children@;
        let mut label = label;
        let start = labels.len();
        labels.append(&mut label);
        let end = labels.len();
        nodes[index].label = start..end;

        if let Some(value) = value {
            nodes[index].value = Some(values.len());
            values.push(value);
        }
        let ghost own_labels = labels@;
        let ghost own_values = values@;

        proof {
            if tree.wf() {
                lemma_apart_unlike(unsorted);
            }
        }
        let children = sort_by_label(children);

        let first = nodes.len();
        let count = children.len();
        let mut added: usize = 0;
        while added < count
            invariant
                added <= count,
                nodes@.len() == first + added,
                forall|k: int| 0 <= k < first ==> nodes@[k] == old(nodes)@[k] || k == index,
                nodes@[index as int].label == (start..end),
                nodes@[index as int].value == (if tree.value is Some {
                    Some(old_values.len() as usize)
                } else {
                    None
                }),
                index < first,
                first == old_nodes.len(),
                forall|k: int| first <= k < first + added ==> #[trigger] nodes@[k] == Node::blank(),
            decreases count - added,
        {
            Self::push_trie_node(nodes);
            added += 1;
        }
        nodes[index].children = first..nodes.len();
        proof {
            models@ = old_models.update(index as int, tree) + Seq::new(count as nat, |i: int| tree);
        }
        let ghost own_nodes = nodes@;
        let ghost own_models = models@;
        let ghost sorted = children@;
        proof {
            assert(extends(labels@, own_labels)) by {
                assert(labels@.subrange(0, own_labels.len() as int) =~= own_labels);
            }
            assert(extends(values@, own_values)) by {
                assert(values@.subrange(0, own_values.len() as int) =~= own_values);
            }
            assert(sorted.take(0) =~= Seq::<BuilderNode<Value>>::empty());
            assert(tree.size(Tally::Nodes) == 1 + BuilderNode::total(unsorted, Tally::Nodes));
            assert(own_labels.subrange(start as int, end as int) =~= tree.label@);
            assert forall|k: int| 0 <= k < first && k != index implies own_nodes[k] == old_nodes[k]
                && own_models[k] == old_models[k] by {}
        }

        let mut child_index = first;
        for child in iter: children
            invariant
                iter.seq() == sorted,
                sorted.len() == count,
                index < first,
                first == old_nodes.len(),
                own_nodes.len() == first + count,
                own_models.len() == first + count,
                child_index == first + iter.index(),
                nodes@.len() == models@.len(),
                nodes@.len() >= first + count,
                tree.size(Tally::Nodes) == 1 + BuilderNode::total(unsorted, Tally::Nodes),
                nodes@.len() + iter.index() == first + count + BuilderNode::total(
                    sorted.take(iter.index() as int),
                    Tally::Nodes,
                ),
                labels@.len() == own_labels.len() + BuilderNode::total(
                    sorted.take(iter.index() as int),
                    Tally::LabelBytes,
                ),
                values@.len() == own_values.len() + BuilderNode::total(
                    sorted.take(iter.index() as int),
                    Tally::Values,
                ),
                extends(labels@, own_labels),
                extends(values@, own_values),
                forall|k: int|
                    0 <= k < first ==> nodes@[k] == own_nodes[k] && models@[k] == own_models[k],
                forall|k: int|
                    first + iter.index() <= k < first + count ==> #[trigger] nodes@[k]
                        == Node::blank(),
                forall|b: int| 0 <= b < iter.index() ==> #[trigger] models@[first + b] == sorted[b],
                forall|k: int|
                    (first <= k < first + iter.index()) || (first + count <= k < nodes@.len())
                        ==> #[trigger] stores(
                        nodes@,
                        labels@,
                        values@,
                        models@,
                        k,
                        first + count,
                    ),
                forall|i: int|
                    0 <= i < sorted.len() ==> among(
                        unsorted,
                        0,
                        unsorted.len() as int,
                        #[trigger] sorted[i],
                    ),
                in_order(sorted),
                forall|i: int|
                    0 <= i < unsorted.len() ==> among(
                        sorted,
                        0,
                        sorted.len() as int,
                        #[trigger] unsorted[i],
                    ),
                tree.children@ == unsorted,
                tree == current,
                tree.wf() ==> unlike(sorted),
                tree.wf() ==> forall|k: int|
                    (first <= k < first + iter.index()) || (first + count <= k < nodes@.len())
                        ==> #[trigger] parted(nodes@, models@, k),
            decreases count - iter.index(),
        {
            let ghost done = iter.index() as int;
            let ghost before_nodes = nodes@;
            let ghost before_labels = labels@;
            let ghost before_values = values@;
            let ghost before_models = models@;
            proof {
                assert(child == sorted[done]);
                assert(among(unsorted, 0, unsorted.len() as int, sorted[done]));
                let at = choose|at: int|
                    0 <= at < unsorted.len() && 0 <= at < unsorted.len() && #[trigger] unsorted[at]
                        == sorted[done];
                BuilderNode::lemma_total_bound(unsorted, at, Tally::Nodes);
                assert(child.size(Tally::Nodes) >= 1);
                assert(child.size(Tally::Nodes) < current.size(Tally::Nodes));
                if tree.wf() {
                    assert(tree.children@[at].wf());
                }
            }
            Self::into_trie_node(child, child_index, nodes, labels, values, models);
            proof {
                if tree.wf() {
                    assert forall|k: int|
                        (first <= k < first + done + 1) || (first + count <= k < nodes@.len())
                            implies #[trigger] parted(nodes@, models@, k) by {
                        if k == child_index || k >= before_nodes.len() {
                        } else {
                            assert(stores(
                                before_nodes,
                                before_labels,
                                before_values,
                                before_models,
                                k,
                                first + count,
                            ));
                            assert(parted(before_nodes, before_models, k));
                            lemma_parted_frame(
                                before_nodes,
                                before_labels,
                                before_values,
                                before_models,
                                nodes@,
                                models@,
                                k,
                                first + count,
                            );
                        }
                    }
                }
                assert(sorted.take(done + 1).drop_last() =~= sorted.take(done));
                assert(sorted.take(done + 1).last() == sorted[done]);
                assert(extends(labels@, own_labels)) by {
                    assert(labels@.subrange(0, own_labels.len() as int)
                        =~= before_labels.subrange(0, own_labels.len() as int)) by {
                        assert forall|k: int| 0 <= k < own_labels.len() implies labels@[k]
                            == before_labels[k] by {
                            assert(labels@.subrange(0, before_labels.len() as int)[k]
                                == before_labels[k]);
                        }
                    }
                }
                assert(extends(values@, own_values)) by {
                    assert(values@.subrange(0, own_values.len() as int)
                        =~= before_values.subrange(0, own_values.len() as int)) by {
                        assert forall|k: int| 0 <= k < own_values.len() implies values@[k]
                            == before_values[k] by {
                            assert(values@.subrange(0, before_values.len() as int)[k]
                                == before_values[k]);
                        }
                    }
                }
                assert forall|b: int| 0 <= b < done + 1 implies #[trigger] models@[first + b]
                    == sorted[b] by {
                    if b < done {
                        assert(before_models[first + b] == sorted[b]);
                    }
                }
                assert forall|k: int|
                    (first <= k < first + done + 1) || (first + count <= k < nodes@.len())
                        implies #[trigger] stores(
                    nodes@,
                    labels@,
                    values@,
                    models@,
                    k,
                    first + count,
                ) by {
                    if k == child_index || k >= before_nodes.len() {
                        assert(stores(
                            nodes@,
                            labels@,
                            values@,
                            models@,
                            k,
                            before_nodes.len() as int,
                        ));
                        lemma_stores_widen(
                            nodes@,
                            labels@,
                            values@,
                            models@,
                            k,
                            before_nodes.len() as int,
                            first + count,
                        );
                    } else {
                        assert(stores(
                            before_nodes,
                            before_labels,
                            before_values,
                            before_models,
                            k,
                            first + count,
                        ));
                        lemma_stores_frame(
                            before_nodes,
                            before_labels,
                            before_values,
                            before_models,
                            nodes@,
                            labels@,
                            values@,
                            models@,
                            k,
                            first + count,
                            first + count,
                        );
                    }
                }
            }
            assert(child_index < nodes.len());
            child_index += 1;
        }
        proof {
            assert(sorted.take(count as int) =~= sorted);
            assert(own_labels.subrange(start as int, end as int) =~= tree.label@);
            assert forall|k: int| 0 <= k < first && k != index implies nodes@[k] == old_nodes[k]
                && models@[k] == old_models[k] by {
                assert(own_nodes[k] == old_nodes[k]);
            }
            assert(extends(labels@, old_labels)) by {
                assert(labels@.subrange(0, old_labels.len() as int) =~= old_labels) by {
                    assert forall|k: int| 0 <= k < old_labels.len() implies labels@[k]
                        == old_labels[k] by {
                        assert(labels@.subrange(0, own_labels.len() as int)[k] == own_labels[k]);
                    }
                }
            }
            assert(extends(values@, old_values)) by {
                assert(values@.subrange(0, old_values.len() as int) =~= old_values) by {
                    assert forall|k: int| 0 <= k < old_values.len() implies values@[k]
                        == old_values[k] by {
                        assert(values@.subrange(0, own_values.len() as int)[k] == own_values[k]);
                    }
                }
            }
            assert(labels@.subrange(start as int, end as int) =~= tree.label@) by {
                assert forall|k: int| start <= k < end implies labels@[k] == own_labels[k] by {
                    assert(labels@.subrange(0, own_labels.len() as int)[k] == own_labels[k]);
                }
            }
            if tree.value is Some {
                assert(values@.subrange(0, own_values.len() as int)[old_values.len() as int]
                    == own_values[old_values.len() as int]);
            }
            assert(nodes@[index as int] == own_nodes[index as int]);
            assert(models@[index as int] == own_models[index as int]);
            lemma_stores_parent(
                nodes@,
                labels@,
                values@,
                models@,
                index as int,
                first as int,
                tree,
                sorted,
            );
            if tree.wf() {
                assert(parted(nodes@, models@, index as int)) by {
                    assert forall|a: int, b: int|
                        nodes@[index as int].children.start <= a < b
                            < nodes@[index as int].children.end implies sorts_before(
                        (#[trigger] models@[a]).label@,
                        (#[trigger] models@[b]).label@,
                    ) && !overlap(models@[a].label@, models@[b].label@) by {
                        assert(models@[first + (a - first)] == sorted[a - first]);
                        assert(models@[first + (b - first)] == sorted[b - first]);
                        lemma_strict_order(sorted, a - first, b - first);
                    }
                }
            }
            assert(first_child(nodes@, index as int) == first);
            assert forall|k: int|
                k == index || first <= k < nodes@.len() implies #[trigger] stores(
                nodes@,
                labels@,
                values@,
                models@,
                k,
                first as int,
            ) by {
                if k != index {
                    assert(stores(nodes@, labels@, values@, models@, k, first + count));
                    lemma_stores_widen(
                        nodes@,
                        labels@,
                        values@,
                        models@,
                        k,
                        first + count,
                        first as int,
                    );
                }
            }
        }
    }

    /// Compacts the builder data into a trie. The vectors of the trie have the lengths
    /// that the builder kept count of: there is one value for each label that the trie
    /// holds a value for, and there are no more nodes than twice as many and the root.
    pub fn build(self) -> (trie: Trie<Value>)
        requires
            self.wf(),
        ensures
            trie@ == self@,
            trie.tally(Tally::Nodes) == self.tally(Tally::Nodes),
            trie.tally(Tally::LabelBytes) == self.tally(Tally::LabelBytes),
            trie.tally(Tally::Values) == self.tally(Tally::Values),
            trie.children_sorted(),
            trie@.dom().finite(),
            trie@.dom().len() == trie.tally(Tally::Values),
            1 <= trie.tally(Tally::Nodes) <= 2 * trie.tally(Tally::Values) + 1,
    {
        proof {
            self.lemma_counters();
        }
        let mut nodes = Vec::with_capacity(self.nodes);
        let mut labels = Vec::with_capacity(self.labels);
        let mut values = Vec::with_capacity(self.values);

        let index = nodes.len();
        Self::push_trie_node(&mut nodes);
        let mut models: Ghost<Seq<BuilderNode<Value>>> = Ghost(Seq::empty().push(self.root));
        Self::into_trie_node(self.root, index, &mut nodes, &mut labels, &mut values, &mut models);

        let trie = Trie { nodes, values, labels, models };
        proof {
            reveal(stores);
            assert forall|index: int| 0 <= index < trie.nodes@.len() implies #[trigger]
                trie.sorted_at(index) by {
                assert(stores(trie.nodes@, trie.labels@, trie.values@, trie.models@, index, 1));
                assert(parted(trie.nodes@, trie.models@, index));
                assert forall|a: int, b: int|
                    #![trigger trie.label_at(a), trie.label_at(b)]
                    trie.nodes@[index].children.start <= a < b
                        < trie.nodes@[index].children.end implies sorts_before(
                    trie.label_at(a),
                    trie.label_at(b),
                ) && !overlap(trie.label_at(a), trie.label_at(b)) by {
                    assert(stores(trie.nodes@, trie.labels@, trie.values@, trie.models@, a, 1));
                    assert(stores(trie.nodes@, trie.labels@, trie.values@, trie.models@, b, 1));
                    assert(trie.label_at(a) == trie.models@[a].label@);
                    assert(trie.label_at(b) == trie.models@[b].label@);
                }
            }
        }
        trie
    }
}

} // verus!
