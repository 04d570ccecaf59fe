//! Laws of builder trees, as the builder and the lookup need them.

use super::{apart, branch, grafted, meets, takes, BuilderNode, Landing, Tally};
use crate::label::{
    is_common_prefix, is_longest_common, is_normalized, is_path_prefix, join, lemma_join_assoc,
    lemma_join_suffix, lemma_longest_common, lemma_overlap_common, lemma_path_prefix_join,
    lemma_suffix_join, overlap, past, path_suffix, SEPARATOR,
};
use vstd::prelude::*;

verus! {

/// Two labels that are path prefixes of one key start with the same segment.
pub(super) proof fn lemma_prefixes_overlap(a: Seq<u8>, b: Seq<u8>, key: Seq<u8>)
    requires
        a.len() > 0,
        b.len() > 0,
        is_path_prefix(a, key),
        is_path_prefix(b, key),
    ensures
        overlap(a, b),
{
    let n: int = if a.len() <= b.len() {
        a.len() as int
    } else {
        b.len() as int
    };
    assert(key.subrange(0, a.len() as int) == a);
    assert(key.subrange(0, b.len() as int) == b);
    assert(a.subrange(0, n) =~= b.subrange(0, n)) by {
        assert(forall|i: int| 0 <= i < n ==> a[i] == key[i] && b[i] == key[i]);
    }
    if a.len() < b.len() {
        assert(b[n] == key[n]);
    }
    if b.len() < a.len() {
        assert(a[n] == key[n]);
    }
    assert(is_common_prefix(a, b, n));
}

/// At most one child lies on the way to a key.
pub(super) proof fn lemma_one_branch<Value>(
    children: Seq<BuilderNode<Value>>,
    i: int,
    j: int,
    key: Seq<u8>,
)
    requires
        apart(children),
        takes(children, i, key),
        takes(children, j, key),
    ensures
        i == j,
{
    if i != j {
        lemma_prefixes_overlap(children[i].label@, children[j].label@, key);
        lemma_overlap_symmetric(children[i].label@, children[j].label@);
    }
}

/// Two labels overlap whichever comes first.
pub(super) proof fn lemma_overlap_symmetric(a: Seq<u8>, b: Seq<u8>)
    ensures
        overlap(a, b) == overlap(b, a),
{
    if overlap(a, b) {
        let n = choose|n: int| n > 0 && is_common_prefix(a, b, n);
        assert(is_common_prefix(b, a, n));
    }
    if overlap(b, a) {
        let n = choose|n: int| n > 0 && is_common_prefix(b, a, n);
        assert(is_common_prefix(a, b, n));
    }
}

/// A label that overlaps with the leading segments of another overlaps with the whole
/// of it.
pub(super) proof fn lemma_overlap_head(full: Seq<u8>, n: int, other: Seq<u8>)
    requires
        0 < n < full.len(),
        full[n] == SEPARATOR,
        overlap(full.subrange(0, n), other),
    ensures
        overlap(full, other),
{
    let head = full.subrange(0, n);
    let m = choose|m: int| m > 0 && is_common_prefix(head, other, m);
    assert(full.subrange(0, m) =~= head.subrange(0, m));
    if m < n {
        assert(head[m] == full[m]);
    }
    assert(is_common_prefix(full, other, m));
}

/// The two parts of a normalized label that a separator parts are normalized and
/// not empty, and make up the label when joined.
pub(super) proof fn lemma_split_label(full: Seq<u8>, n: int)
    requires
        is_normalized(full),
        0 <= n < full.len(),
        full[n] == SEPARATOR,
    ensures
        0 < n,
        n + 1 < full.len(),
        is_normalized(full.subrange(0, n)),
        is_normalized(full.subrange(n + 1, full.len() as int)),
        join(full.subrange(0, n), full.subrange(n + 1, full.len() as int)) == full,
{
    let head = full.subrange(0, n);
    let tail = full.subrange(n + 1, full.len() as int);
    assert forall|i: int| 0 <= i < head.len() && #[trigger] head[i] == SEPARATOR implies 0 < i
        && i + 1 < head.len() && head[i + 1] != SEPARATOR by {
        assert(full[i] == SEPARATOR);
    }
    assert forall|i: int| 0 <= i < tail.len() && #[trigger] tail[i] == SEPARATOR implies 0 < i
        && i + 1 < tail.len() && tail[i + 1] != SEPARATOR by {
        assert(full[n + 1 + i] == SEPARATOR);
    }
    assert(join(head, tail) =~= full);
}

/// Past their longest common prefix two labels do not overlap.
pub(super) proof fn lemma_apart_past_longest(a: Seq<u8>, b: Seq<u8>, n: int)
    requires
        is_common_prefix(a, b, n),
        forall|m: int| is_common_prefix(a, b, m) ==> m <= n,
        n < a.len(),
        n < b.len(),
    ensures
        !overlap(a.subrange(n + 1, a.len() as int), b.subrange(n + 1, b.len() as int)),
{
    let x = a.subrange(n + 1, a.len() as int);
    let y = b.subrange(n + 1, b.len() as int);
    if overlap(x, y) {
        let m = choose|m: int| m > 0 && is_common_prefix(x, y, m);
        let k = n + 1 + m;
        assert(a.subrange(0, k) =~= b.subrange(0, k)) by {
            assert forall|i: int| 0 <= i < k implies a[i] == b[i] by {
                if i < n {
                    assert(a.subrange(0, n)[i] == b.subrange(0, n)[i]);
                } else if i > n {
                    assert(x.subrange(0, m)[i - n - 1] == y.subrange(0, m)[i - n - 1]);
                }
            }
        }
        if m < x.len() {
            assert(x[m] == a[k]);
        }
        if m < y.len() {
            assert(y[m] == b[k]);
        }
        assert(is_common_prefix(a, b, k));
    }
}

/// At most one child begins with the segment that a label begins with.
pub(super) proof fn lemma_one_meeting<Value>(
    children: Seq<BuilderNode<Value>>,
    i: int,
    j: int,
    label: Seq<u8>,
)
    requires
        apart(children),
        meets(children, i, label),
        meets(children, j, label),
    ensures
        i == j,
{
    if i != j {
        lemma_overlap_common(children[i].label@, children[j].label@, label);
        lemma_overlap_symmetric(children[i].label@, children[j].label@);
    }
}

impl<Value> BuilderNode<Value> {
    /// The entry for a key that child `i` lies on the way to is an entry of that child.
    pub(super) proof fn lemma_entry_below(self, i: int, key: Seq<u8>)
        requires
            apart(self.children@),
            takes(self.children@, i, key),
        ensures
            self.entry(key) == self.children@[i].entry(path_suffix(key, self.children@[i].label@)),
    {
        lemma_one_branch(self.children@, i, branch(self.children@, key), key);
    }

    /// There is no entry for a key, other than the empty one, that no child lies on the
    /// way to.
    pub(super) proof fn lemma_entry_nowhere(self, key: Seq<u8>)
        requires
            key.len() > 0,
            forall|i: int| !takes(self.children@, i, key),
        ensures
            self.entry(key) is None,
    {
    }

    /// The entries of a child are the entries of its parent for the keys that the
    /// child's label leads to.
    pub(super) proof fn lemma_entry_above(self, i: int, key: Seq<u8>)
        requires
            apart(self.children@),
            0 <= i < self.children@.len(),
        ensures
            self.children@[i].entry(key) == self.entry(join(self.children@[i].label@, key)),
    {
        let label = self.children@[i].label@;
        lemma_suffix_join(label, key);
        self.lemma_entry_below(i, join(label, key));
    }

    /// Replacing one subtree of several changes a tally by the difference of the two.
    pub(super) proof fn lemma_total_update(nodes: Seq<Self>, i: int, node: Self, what: Tally)
        requires
            0 <= i < nodes.len(),
        ensures
            Self::total(nodes.update(i, node), what) + nodes[i].size(what) == Self::total(
                nodes,
                what,
            ) + node.size(what),
        decreases nodes.len(),
    {
        let changed = nodes.update(i, node);
        if i == nodes.len() - 1 {
            assert(changed.drop_last() =~= nodes.drop_last());
        } else {
            assert(changed.drop_last() =~= nodes.drop_last().update(i, node));
            Self::lemma_total_update(nodes.drop_last(), i, node, what);
        }
    }

    /// The tally over subtrees to which one more is added.
    pub(super) proof fn lemma_total_push(nodes: Seq<Self>, node: Self, what: Tally)
        ensures
            Self::total(nodes.push(node), what) == Self::total(nodes, what) + node.size(what),
    {
        assert(nodes.push(node).drop_last() =~= nodes);
    }

    /// A tree is grafted onto itself, at the root, by any tree that has its label.
    pub(super) proof fn lemma_graft_self(self, after: Self)
        requires
            after.label@ == self.label@,
            after.wf(),
        ensures
            grafted(self, after, Seq::empty(), self, after, 0, 0),
    {
    }

    /// Replacing a child by a tree that has its label grafts that tree into the parent.
    pub(super) proof fn lemma_graft_child(self, after: Self, i: int, filled: Self)
        requires
            self.wf(),
            0 <= i < self.children@.len(),
            after.label@ == self.label@,
            after.value == self.value,
            after.children@ == self.children@.update(i, filled),
            filled.wf(),
            filled.label@ == self.children@[i].label@,
        ensures
            grafted(self, after, self.children@[i].label@, self.children@[i], filled, 0, 0),
    {
        let label = self.children@[i].label@;
        let hole = self.children@[i];
        assert(apart(after.children@)) by {
            assert forall|a: int, b: int| 0 <= a < b < after.children@.len() implies !overlap(
                (#[trigger] after.children@[a]).label@,
                (#[trigger] after.children@[b]).label@,
            ) by {
                assert(after.children@[a].label@ == self.children@[a].label@);
                assert(after.children@[b].label@ == self.children@[b].label@);
            }
            assert forall|a: int| 0 <= a < after.children@.len() implies (
            #[trigger] after.children@[a]).label@.len() > 0 by {
                assert(after.children@[a].label@ == self.children@[a].label@);
            }
        }
        assert forall|a: int| 0 <= a < after.children@.len() implies (
        #[trigger] after.children@[a]).wf() by {
            if a != i {
                assert(self.children@[a].wf());
            }
        }
        assert forall|key: Seq<u8>| #[trigger]
            after.entry(key) == (if is_path_prefix(label, key) {
                filled.entry(path_suffix(key, label))
            } else {
                self.entry(key)
            }) by {
            assert forall|k: int| takes(after.children@, k, key) == takes(self.children@, k, key) by {
                if 0 <= k < self.children@.len() {
                    assert(after.children@[k].label@ == self.children@[k].label@);
                }
            }
            if key.len() > 0 {
                if exists|k: int| takes(self.children@, k, key) {
                    let k = choose|k: int| takes(self.children@, k, key);
                    after.lemma_entry_below(k, key);
                    self.lemma_entry_below(k, key);
                    if is_path_prefix(label, key) {
                        lemma_one_branch(self.children@, i, k, key);
                    }
                } else {
                    assert(!takes(self.children@, i, key));
                }
            }
        }
        assert forall|key: Seq<u8>| #[trigger] hole.entry(key) == self.entry(join(label, key)) by {
            self.lemma_entry_above(i, key);
        }
        Self::lemma_total_update(self.children@, i, filled, Tally::Nodes);
        Self::lemma_total_update(self.children@, i, filled, Tally::LabelBytes);
        Self::lemma_total_update(self.children@, i, filled, Tally::Values);
        assert(after.node_at(label) == Some(filled)) by {
            assert(takes(after.children@, i, label));
            lemma_one_branch(after.children@, i, branch(after.children@, label), label);
            assert(path_suffix(label, label) =~= Seq::<u8>::empty());
            assert(filled.node_at(Seq::empty()) == Some(filled));
        }
    }

    /// The node that a path leads to is where any path that goes on from it goes on
    /// from.
    pub(super) proof fn lemma_node_at_join(self, path: Seq<u8>, more: Seq<u8>, node: Self)
        requires
            self.wf(),
            path.len() > 0,
            self.node_at(path) == Some(node),
        ensures
            self.node_at(join(path, more)) == node.node_at(more),
        decreases self,
    {
        let i = branch(self.children@, path);
        assert(takes(self.children@, i, path));
        let child = self.children@[i];
        let label = child.label@;
        let rest = path_suffix(path, label);
        let key = join(path, more);
        lemma_join_suffix(label, path);
        lemma_join_assoc(label, rest, more);
        lemma_suffix_join(label, join(rest, more));
        assert(takes(self.children@, i, key));
        lemma_one_branch(self.children@, i, branch(self.children@, key), key);
        assert(child.wf());
        if rest.len() > 0 {
            child.lemma_node_at_join(rest, more, node);
        }
    }

    /// A graft into a tree that was grafted into another is a graft into the other.
    pub(super) proof fn lemma_graft_compose(
        self,
        after: Self,
        path: Seq<u8>,
        hole: Self,
        filled: Self,
        nodes: int,
        labels: int,
        inner_path: Seq<u8>,
        inner_hole: Self,
        inner_filled: Self,
        inner_nodes: int,
        inner_labels: int,
    )
        requires
            path.len() > 0,
            grafted(self, after, path, hole, filled, nodes, labels),
            grafted(hole, filled, inner_path, inner_hole, inner_filled, inner_nodes, inner_labels),
        ensures
            grafted(
                self,
                after,
                join(path, inner_path),
                inner_hole,
                inner_filled,
                nodes + inner_nodes,
                labels + inner_labels,
            ),
    {
        let whole = join(path, inner_path);
        after.lemma_node_at_join(path, inner_path, filled);
        assert forall|key: Seq<u8>| #[trigger]
            after.entry(key) == (if is_path_prefix(whole, key) {
                inner_filled.entry(path_suffix(key, whole))
            } else {
                self.entry(key)
            }) by {
            lemma_path_prefix_join(path, inner_path, key);
            if is_path_prefix(path, key) {
                let rest = path_suffix(key, path);
                lemma_join_suffix(path, key);
                assert(hole.entry(rest) == self.entry(join(path, rest)));
                assert(filled.entry(rest) == (if is_path_prefix(inner_path, rest) {
                    inner_filled.entry(path_suffix(rest, inner_path))
                } else {
                    hole.entry(rest)
                }));
            }
        }
        assert forall|key: Seq<u8>| #[trigger]
            inner_hole.entry(key) == self.entry(join(whole, key)) by {
            lemma_join_assoc(path, inner_path, key);
            assert(inner_hole.entry(key) == hole.entry(join(inner_path, key)));
            assert(hole.entry(join(inner_path, key)) == self.entry(
                join(path, join(inner_path, key)),
            ));
        }
    }

    /// Taking one subtree away from several lowers a tally by its own.
    pub(super) proof fn lemma_total_remove(nodes: Seq<Self>, i: int, what: Tally)
        requires
            0 <= i < nodes.len(),
        ensures
            Self::total(nodes.remove(i), what) + nodes[i].size(what) == Self::total(nodes, what),
        decreases nodes.len(),
    {
        if i == nodes.len() - 1 {
            assert(nodes.remove(i) =~= nodes.drop_last());
        } else {
            assert(nodes.remove(i).drop_last() =~= nodes.drop_last().remove(i));
            Self::lemma_total_remove(nodes.drop_last(), i, what);
        }
    }

    /// The descent for a label that no child begins with the first segment of ends at
    /// the node, with the whole label left.
    pub(super) proof fn lemma_landing_here(self, label: Seq<u8>)
        requires
            self.clear_of(label),
        ensures
            self.landing(label) == (Landing {
                rest: label,
                split: false,
                label: self.label@,
                tail: Seq::empty(),
            }),
    {
        assert forall|i: int| !meets(self.children@, i, label) by {
            if 0 <= i < self.children@.len() {
                assert(!overlap(self.children@[i].label@, label));
            }
        }
    }

    /// The descent for a label that child `i` begins with the first segment of splits
    /// the child where its label is longer than what the two have in common, and goes on
    /// in the child else.
    pub(super) proof fn lemma_landing_below(self, i: int, label: Seq<u8>, length: int)
        requires
            apart(self.children@),
            meets(self.children@, i, label),
            is_longest_common(self.children@[i].label@, label, length),
        ensures
            self.landing(label) == (if length < self.children@[i].label@.len() {
                Landing {
                    rest: past(label, length),
                    split: true,
                    label: self.children@[i].label@.subrange(0, length),
                    tail: self.children@[i].label@.subrange(
                        length + 1,
                        self.children@[i].label@.len() as int,
                    ),
                }
            } else {
                self.children@[i].landing(past(label, length))
            }),
    {
        let found = choose|i: int| meets(self.children@, i, label);
        lemma_one_meeting(self.children@, i, found, label);
        lemma_longest_common(self.children@[i].label@, label, length);
    }

    /// A tree stays lean where a child is replaced by a lean tree that is of use.
    pub(super) proof fn lemma_lean_replace(self, after: Self, i: int, filled: Self)
        requires
            0 <= i < self.children@.len(),
            forall|k: int|
                0 <= k < self.children@.len() && k != i ==> (#[trigger] self.children@[k]).fit()
                    && self.children@[k].lean(),
            after.children@ == self.children@.update(i, filled),
            filled.fit(),
            filled.lean(),
        ensures
            after.lean(),
    {
        assert forall|k: int| 0 <= k < after.children@.len() implies (
        #[trigger] after.children@[k]).fit() && after.children@[k].lean() by {
            if k != i {
                assert(self.children@[k].fit());
            }
        }
    }

    /// The node that a child is put below when it is split is lean, and has a child.
    pub(super) proof fn lemma_lean_split(self, upper: Self)
        requires
            self.fit(),
            self.lean(),
            upper.children@.len() == 1,
            upper.children@[0].value == self.value,
            upper.children@[0].children@ == self.children@,
        ensures
            upper.lean(),
            upper.nearly_fit(),
    {
        let lower = upper.children@[0];
        assert(lower.lean()) by {
            assert forall|k: int| 0 <= k < lower.children@.len() implies (
            #[trigger] lower.children@[k]).fit() && lower.children@[k].lean() by {
                assert(self.children@[k].fit());
            }
        }
    }

    /// Twice the values below the nodes outnumber the nodes, where these are lean and of
    /// use.
    pub(super) proof fn lemma_lean_total(nodes: Seq<Self>)
        requires
            forall|k: int| 0 <= k < nodes.len() ==> (#[trigger] nodes[k]).fit() && nodes[k].lean(),
        ensures
            Self::total(nodes, Tally::Nodes) + nodes.len() <= 2 * Self::total(
                nodes,
                Tally::Values,
            ),
        decreases nodes, 0int,
    {
        if nodes.len() > 0 {
            let last = nodes.last();
            assert(last.fit() && last.lean());
            Self::lemma_lean_total(nodes.drop_last());
            last.lemma_lean_size();
        }
    }

    /// A lean tree has no more nodes than twice its values, and its root.
    pub(super) proof fn lemma_lean_size(self)
        requires
            self.lean(),
        ensures
            self.size(Tally::Nodes) + self.children@.len() <= 2 * Self::total(
                self.children@,
                Tally::Values,
            ) + 1,
            self.fit() ==> self.size(Tally::Nodes) + 1 <= 2 * self.size(Tally::Values),
            self.size(Tally::Nodes) <= 2 * self.size(Tally::Values) + 1,
        decreases self, 1int,
    {
        Self::lemma_lean_total(self.children@);
    }

    /// A subtree weighs no more in a tally than all the subtrees it stands among.
    pub(super) proof fn lemma_total_bound(nodes: Seq<Self>, i: int, what: Tally)
        requires
            0 <= i < nodes.len(),
        ensures
            nodes[i].size(what) <= Self::total(nodes, what),
        decreases nodes.len(),
    {
        if i < nodes.len() - 1 {
            Self::lemma_total_bound(nodes.drop_last(), i, what);
        }
    }

    /// Splitting the label of a child at a separator, with a new node for the first part
    /// and the child below it, leaves the entries of the tree as they are.
    pub(super) proof fn lemma_split(self, after: Self, i: int, n: int, upper: Self)
        requires
            self.wf(),
            0 <= i < self.children@.len(),
            0 <= n < self.children@[i].label@.len(),
            self.children@[i].label@[n] == SEPARATOR,
            after.label@ == self.label@,
            after.value == self.value,
            after.children@ == self.children@.update(i, upper),
            upper.label@ == self.children@[i].label@.subrange(0, n),
            upper.value is None,
            upper.children@.len() == 1,
            upper.children@[0].label@ == self.children@[i].label@.subrange(
                n + 1,
                self.children@[i].label@.len() as int,
            ),
            upper.children@[0].value == self.children@[i].value,
            upper.children@[0].children@ == self.children@[i].children@,
        ensures
            after.wf(),
            upper.wf(),
            forall|key: Seq<u8>| after.entry(key) == self.entry(key),
            after.size(Tally::Nodes) == self.size(Tally::Nodes) + 1,
            after.size(Tally::LabelBytes) + 1 == self.size(Tally::LabelBytes),
            after.size(Tally::Values) == self.size(Tally::Values),
    {
        let child = self.children@[i];
        let full = child.label@;
        let head = upper.label@;
        let lower = upper.children@[0];
        let tail = lower.label@;
        assert(child.wf());
        lemma_split_label(full, n);
        assert(lower.wf()) by {
            assert forall|a: int| 0 <= a < lower.children@.len() implies (
            #[trigger] lower.children@[a]).wf() by {
                assert(child.children@[a].wf());
            }
        }
        assert(upper.wf());
        assert(apart(after.children@)) by {
            assert forall|a: int, b: int| 0 <= a < b < after.children@.len() implies !overlap(
                (#[trigger] after.children@[a]).label@,
                (#[trigger] after.children@[b]).label@,
            ) by {
                let x = self.children@[a].label@;
                let y = self.children@[b].label@;
                assert(!overlap(x, y));
                if a == i {
                    if overlap(head, y) {
                        lemma_overlap_head(full, n, y);
                    }
                } else if b == i {
                    lemma_overlap_symmetric(x, head);
                    lemma_overlap_symmetric(x, full);
                    if overlap(head, x) {
                        lemma_overlap_head(full, n, x);
                    }
                }
            }
            assert forall|a: int| 0 <= a < after.children@.len() implies (
            #[trigger] after.children@[a]).label@.len() > 0 by {
                if a != i {
                    assert(self.children@[a].label@.len() > 0);
                }
            }
        }
        assert forall|a: int| 0 <= a < after.children@.len() implies (
        #[trigger] after.children@[a]).wf() by {
            if a != i {
                assert(self.children@[a].wf());
            }
        }
        assert forall|key: Seq<u8>| after.entry(key) == self.entry(key) by {
            if key.len() > 0 {
                lemma_path_prefix_join(head, tail, key);
                let rest = path_suffix(key, head);
                assert forall|k: int| k != i implies takes(after.children@, k, key) == takes(
                    self.children@,
                    k,
                    key,
                ) by {}
                if takes(self.children@, i, key) {
                    self.lemma_entry_below(i, key);
                    assert(takes(after.children@, i, key));
                    after.lemma_entry_below(i, key);
                    assert(takes(upper.children@, 0, rest));
                    upper.lemma_entry_below(0, rest);
                    assert(lower.entry(path_suffix(rest, tail)) == child.entry(
                        path_suffix(rest, tail),
                    ));
                } else if exists|k: int| takes(self.children@, k, key) {
                    let k = choose|k: int| takes(self.children@, k, key);
                    self.lemma_entry_below(k, key);
                    after.lemma_entry_below(k, key);
                } else {
                    if takes(after.children@, i, key) {
                        after.lemma_entry_below(i, key);
                        if rest.len() > 0 {
                            assert forall|k: int| !takes(upper.children@, k, rest) by {}
                            upper.lemma_entry_nowhere(rest);
                        }
                    } else {
                        assert forall|k: int| !takes(after.children@, k, key) by {}
                    }
                }
            }
        }
        assert(upper.children@.drop_last() =~= Seq::<Self>::empty());
        assert(upper.children@.last() == lower);
        assert forall|what: Tally| #[trigger] upper.size(what) + child.own(what) == child.size(what)
            + upper.own(what) + lower.own(what) by {
            assert(Self::total(upper.children@.drop_last(), what) == 0);
            assert(Self::total(upper.children@, what) == lower.size(what));
            assert(lower.size(what) == lower.own(what) + Self::total(child.children@, what));
        }
        assert(upper.size(Tally::Nodes) == child.size(Tally::Nodes) + 1);
        assert(upper.size(Tally::LabelBytes) + 1 == child.size(Tally::LabelBytes));
        assert(upper.size(Tally::Values) == child.size(Tally::Values));
        Self::lemma_total_update(self.children@, i, upper, Tally::Nodes);
        Self::lemma_total_update(self.children@, i, upper, Tally::LabelBytes);
        Self::lemma_total_update(self.children@, i, upper, Tally::Values);
    }

    /// Setting the value of a node changes its entry for the empty label and no other.
    pub(super) proof fn lemma_set_value(self, filled: Self, value: Value)
        requires
            self.wf(),
            filled.label@ == self.label@,
            filled.children@ == self.children@,
            filled.value == Some(value),
        ensures
            filled.wf(),
            forall|key: Seq<u8>| #[trigger]
                filled.entry(key) == (if key.len() == 0 {
                    Some(value)
                } else {
                    self.entry(key)
                }),
            filled.size(Tally::Nodes) == self.size(Tally::Nodes),
            filled.size(Tally::LabelBytes) == self.size(Tally::LabelBytes),
            filled.size(Tally::Values) == self.size(Tally::Values) + (if self.value is Some {
                0int
            } else {
                1int
            }),
    {
    }

    /// A label has no entry in a node none of whose children it overlaps with.
    pub(super) proof fn lemma_clear_no_entry(self, label: Seq<u8>)
        requires
            label.len() > 0,
            self.clear_of(label),
        ensures
            forall|k: int| !takes(self.children@, k, label),
            self.entry(label) is None,
    {
        assert forall|k: int| !takes(self.children@, k, label) by {
            if takes(self.children@, k, label) {
                let a = self.children@[k].label@;
                assert(label.subrange(0, a.len() as int) == a);
                assert(a.subrange(0, a.len() as int) =~= a);
                assert(is_common_prefix(a, label, a.len() as int));
            }
        }
    }

    /// Adding a leaf with a label that overlaps with no child adds an entry for that
    /// label and changes no other.
    pub(super) proof fn lemma_add_leaf(self, filled: Self, leaf: Self, value: Value)
        requires
            self.wf(),
            filled.label@ == self.label@,
            filled.value == self.value,
            filled.children@ == self.children@.push(leaf),
            leaf.label@.len() > 0,
            is_normalized(leaf.label@),
            leaf.children@.len() == 0,
            leaf.value == Some(value),
            self.clear_of(leaf.label@),
        ensures
            filled.wf(),
            forall|key: Seq<u8>| #[trigger]
                filled.entry(key) == (if key == leaf.label@ {
                    Some(value)
                } else {
                    self.entry(key)
                }),
            filled.size(Tally::Nodes) == self.size(Tally::Nodes) + 1,
            filled.size(Tally::LabelBytes) == self.size(Tally::LabelBytes) + leaf.label@.len(),
            filled.size(Tally::Values) == self.size(Tally::Values) + 1,
    {
        let n = self.children@.len() as int;
        let label = leaf.label@;
        assert(leaf.wf());
        assert(apart(filled.children@)) by {
            assert forall|a: int, b: int| 0 <= a < b < filled.children@.len() implies !overlap(
                (#[trigger] filled.children@[a]).label@,
                (#[trigger] filled.children@[b]).label@,
            ) by {
                if b == n {
                    assert(!overlap(self.children@[a].label@, label));
                } else {
                    assert(!overlap(self.children@[a].label@, self.children@[b].label@));
                }
            }
            assert forall|a: int| 0 <= a < filled.children@.len() implies (
            #[trigger] filled.children@[a]).label@.len() > 0 by {
                if a < n {
                    assert(self.children@[a].label@.len() > 0);
                }
            }
        }
        assert forall|a: int| 0 <= a < filled.children@.len() implies (
        #[trigger] filled.children@[a]).wf() by {
            if a < n {
                assert(self.children@[a].wf());
            }
        }
        assert forall|key: Seq<u8>| #[trigger]
            filled.entry(key) == (if key == label {
                Some(value)
            } else {
                self.entry(key)
            }) by {
            if key.len() > 0 {
                assert forall|k: int| k != n implies takes(filled.children@, k, key) == takes(
                    self.children@,
                    k,
                    key,
                ) by {}
                if takes(filled.children@, n, key) {
                    filled.lemma_entry_below(n, key);
                    let rest = path_suffix(key, label);
                    if rest.len() > 0 {
                        assert forall|k: int| !takes(leaf.children@, k, rest) by {}
                        leaf.lemma_entry_nowhere(rest);
                    }
                    assert forall|k: int| !takes(self.children@, k, key) by {
                        if takes(self.children@, k, key) {
                            lemma_one_branch(filled.children@, k, n, key);
                        }
                    }
                } else if exists|k: int| takes(self.children@, k, key) {
                    let k = choose|k: int| takes(self.children@, k, key);
                    self.lemma_entry_below(k, key);
                    filled.lemma_entry_below(k, key);
                } else {
                    assert forall|k: int| !takes(filled.children@, k, key) by {}
                }
            }
        }
        Self::lemma_total_push(self.children@, leaf, Tally::Nodes);
        Self::lemma_total_push(self.children@, leaf, Tally::LabelBytes);
        Self::lemma_total_push(self.children@, leaf, Tally::Values);
        assert forall|what: Tally| #[trigger] Self::total(leaf.children@, what) == 0 by {}
    }

    /// A graft that adds one entry to the node it fills adds one entry to the tree.
    pub(super) proof fn lemma_graft_insert(
        self,
        after: Self,
        path: Seq<u8>,
        hole: Self,
        filled: Self,
        nodes: int,
        labels: int,
        rest: Seq<u8>,
        value: Value,
    )
        requires
            grafted(self, after, path, hole, filled, nodes, labels),
            forall|key: Seq<u8>| #[trigger]
                filled.entry(key) == (if key == rest {
                    Some(value)
                } else {
                    hole.entry(key)
                }),
        ensures
            forall|key: Seq<u8>| #[trigger]
                after.entry(key) == (if key == join(path, rest) {
                    Some(value)
                } else {
                    self.entry(key)
                }),
            self.entry(join(path, rest)) == hole.entry(rest),
    {
        lemma_suffix_join(path, rest);
        assert forall|key: Seq<u8>| #[trigger]
            after.entry(key) == (if key == join(path, rest) {
                Some(value)
            } else {
                self.entry(key)
            }) by {
            if is_path_prefix(path, key) {
                lemma_join_suffix(path, key);
                let k = path_suffix(key, path);
                assert(hole.entry(k) == self.entry(join(path, k)));
            }
        }
        assert(hole.entry(rest) == self.entry(join(path, rest)));
    }

    /// A graft into a tree is a graft into any tree with the same label and entries.
    pub(super) proof fn lemma_graft_rebase(
        self,
        same: Self,
        after: Self,
        path: Seq<u8>,
        hole: Self,
        filled: Self,
        nodes: int,
        labels: int,
    )
        requires
            grafted(same, after, path, hole, filled, 0, 0),
            same.label@ == self.label@,
            forall|key: Seq<u8>| same.entry(key) == self.entry(key),
            same.size(Tally::Nodes) == self.size(Tally::Nodes) + nodes,
            same.size(Tally::LabelBytes) == self.size(Tally::LabelBytes) + labels,
            same.size(Tally::Values) == self.size(Tally::Values),
        ensures
            grafted(self, after, path, hole, filled, nodes, labels),
    {
        assert forall|key: Seq<u8>| #[trigger] hole.entry(key) == self.entry(join(path, key)) by {
            assert(hole.entry(key) == same.entry(join(path, key)));
        }
        assert forall|key: Seq<u8>| #[trigger]
            after.entry(key) == (if is_path_prefix(path, key) {
                filled.entry(path_suffix(key, path))
            } else {
                self.entry(key)
            }) by {
            assert(same.entry(key) == self.entry(key));
        }
    }
}

} // verus!
