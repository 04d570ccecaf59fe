//! What the descent for a label comes to, told by the labels that a builder holds a value
//! for.

use super::laws::{lemma_one_branch, lemma_one_meeting};
use super::{branch, meets, takes, BuilderNode, TrieBuilder};
use crate::label::{
    consumed, is_common_prefix, is_longest_common, is_normalized, is_path_prefix, join,
    lemma_consumed_join, lemma_join_suffix, lemma_overlap_common,
    lemma_path_prefix_join, lemma_suffix_join, longest_common, overlap, past, path_suffix,
    SEPARATOR,
};
use vstd::prelude::*;

verus! {

/// Whether `depth` is how far `label` goes along with the labels that `map` holds a value
/// for: the greatest length of a common prefix of the label and one of them, or zero.
pub open spec fn is_depth<Value>(map: Map<Seq<u8>, Value>, label: Seq<u8>, depth: int) -> bool {
    &&& depth >= 0
    &&& depth == 0 || exists|key: Seq<u8>|
        map.contains_key(key) && #[trigger] is_common_prefix(key, label, depth)
    &&& forall|key: Seq<u8>, length: int|
        map.contains_key(key) && #[trigger] is_common_prefix(key, label, length) ==> length
            <= depth
}

/// What is left of `label` behind the first `depth` bytes that it goes along with other
/// labels: all of it where it goes along with none.
pub open spec fn rest_at(label: Seq<u8>, depth: int) -> Seq<u8> {
    if depth == 0 {
        label
    } else {
        past(label, depth)
    }
}

/// Whether two labels that `map` holds a value for part at `path`: both continue the
/// path, and they go on from it with different segments.
pub open spec fn parts_at<Value>(
    map: Map<Seq<u8>, Value>,
    path: Seq<u8>,
    one: Seq<u8>,
    other: Seq<u8>,
) -> bool {
    &&& map.contains_key(one)
    &&& map.contains_key(other)
    &&& is_path_prefix(path, one)
    &&& is_path_prefix(path, other)
    &&& one != path
    &&& other != path
    &&& !overlap(path_suffix(one, path), path_suffix(other, path))
}

/// Whether `map` holds a value for `path`, or two labels that it holds a value for part
/// there.
pub open spec fn is_fork<Value>(map: Map<Seq<u8>, Value>, path: Seq<u8>) -> bool {
    map.contains_key(path) || exists|one: Seq<u8>, other: Seq<u8>|
        parts_at(map, path, one, other)
}

/// Whether a trie of the labels that `map` holds a value for has a node for `path`: the
/// root for the empty path; else a node with the value for the path, or one where two
/// labels part.
pub open spec fn is_node<Value>(map: Map<Seq<u8>, Value>, path: Seq<u8>) -> bool {
    path.len() == 0 || is_fork(map, path)
}

/// There is one depth at most.
pub proof fn lemma_one_depth<Value>(
    map: Map<Seq<u8>, Value>,
    label: Seq<u8>,
    depth: int,
    other: int,
)
    requires
        is_depth(map, label, depth),
        is_depth(map, label, other),
    ensures
        depth == other,
{
    if depth > 0 {
        let key = choose|key: Seq<u8>|
            map.contains_key(key) && #[trigger] is_common_prefix(key, label, depth);
        assert(is_common_prefix(key, label, depth));
    }
    if other > 0 {
        let key = choose|key: Seq<u8>|
            map.contains_key(key) && #[trigger] is_common_prefix(key, label, other);
        assert(is_common_prefix(key, label, other));
    }
}

/// Among the lengths up to `limit` there is a longest common prefix of two labels.
proof fn lemma_longest_below(a: Seq<u8>, b: Seq<u8>, limit: int) -> (found: int)
    requires
        limit >= 0,
    ensures
        0 <= found <= limit,
        found == 0 || is_common_prefix(a, b, found),
        forall|m: int| is_common_prefix(a, b, m) && m <= limit ==> m <= found,
    decreases limit,
{
    if limit == 0 {
        0
    } else if is_common_prefix(a, b, limit) {
        limit
    } else {
        lemma_longest_below(a, b, limit - 1)
    }
}

/// Two labels have a longest common prefix.
proof fn lemma_longest_exists(a: Seq<u8>, b: Seq<u8>)
    ensures
        is_longest_common(a, b, longest_common(a, b)),
{
    let found = lemma_longest_below(a, b, a.len() as int);
    assert(is_longest_common(a, b, found));
}

/// A common prefix of a label and a key that is no longer than a path prefix of the key
/// is a common prefix of the label and the path prefix.
proof fn lemma_common_head(head: Seq<u8>, key: Seq<u8>, label: Seq<u8>, length: int)
    requires
        head.len() > 0,
        is_path_prefix(head, key),
        is_common_prefix(key, label, length),
        0 < length <= head.len(),
    ensures
        is_common_prefix(head, label, length),
{
    assert(key.subrange(0, head.len() as int) =~= head);
    assert(head.subrange(0, length) =~= key.subrange(0, length));
    if length < head.len() {
        assert(key[length] == head[length]);
    }
}

/// A common prefix of a label and a key that is longer than a path prefix of the key
/// goes over the path prefix, which the label is continued from too.
proof fn lemma_common_over(head: Seq<u8>, key: Seq<u8>, label: Seq<u8>, length: int)
    requires
        head.len() > 0,
        is_path_prefix(head, key),
        is_common_prefix(key, label, length),
        length > head.len(),
    ensures
        is_common_prefix(head, label, head.len() as int),
        label.len() > head.len(),
        label[head.len() as int] == SEPARATOR,
        key.len() > head.len() + 1,
        is_common_prefix(
            path_suffix(key, head),
            label.subrange(head.len() as int + 1, label.len() as int),
            length - head.len() - 1,
        ),
{
    let size = head.len() as int;
    assert(key.subrange(0, size) =~= head);
    assert(key.subrange(0, length)[size] == label.subrange(0, length)[size]);
    assert(head.subrange(0, size) =~= label.subrange(0, size)) by {
        assert forall|i: int| 0 <= i < size implies head[i] == label[i] by {
            assert(key.subrange(0, length)[i] == label.subrange(0, length)[i]);
        }
    }
    let rest = path_suffix(key, head);
    let tail = label.subrange(size + 1, label.len() as int);
    let left = length - size - 1;
    assert(rest.subrange(0, left) =~= tail.subrange(0, left)) by {
        assert forall|i: int| 0 <= i < left implies rest[i] == tail[i] by {
            assert(key.subrange(0, length)[size + 1 + i] == label.subrange(0, length)[size + 1
                + i]);
        }
    }
    if left < rest.len() {
        assert(rest[left] == key[length]);
    }
    if left < tail.len() {
        assert(tail[left] == label[length]);
    }
}

/// A common prefix of two labels is one of the two when both continue a third.
proof fn lemma_common_join(head: Seq<u8>, key: Seq<u8>, label: Seq<u8>, length: int)
    requires
        head.len() > 0,
        length > 0,
        is_common_prefix(key, label, length),
    ensures
        is_common_prefix(join(head, key), join(head, label), head.len() + 1 + length),
{
    let one = join(head, key);
    let two = join(head, label);
    let size = head.len() as int;
    let whole = size + 1 + length;
    assert(one.subrange(0, whole) =~= two.subrange(0, whole)) by {
        assert forall|i: int| 0 <= i < whole implies one[i] == two[i] by {
            if i > size {
                assert(key.subrange(0, length)[i - size - 1] == label.subrange(0, length)[i
                    - size - 1]);
            }
        }
    }
    if length < key.len() {
        assert(one[whole] == key[length]);
    }
    if length < label.len() {
        assert(two[whole] == label[length]);
    }
}

/// Two labels that continue a third go on alike behind each part of it.
proof fn lemma_tails_overlap(full: Seq<u8>, length: int, one: Seq<u8>, other: Seq<u8>)
    requires
        0 < length,
        length + 1 < full.len(),
        full[length] == SEPARATOR,
        is_path_prefix(full, one),
        is_path_prefix(full, other),
    ensures
        overlap(
            path_suffix(one, full.subrange(0, length)),
            path_suffix(other, full.subrange(0, length)),
        ),
{
    let head = full.subrange(0, length);
    let left = path_suffix(one, head);
    let right = path_suffix(other, head);
    let size = full.len() - length - 1;
    assert(one.subrange(0, full.len() as int) =~= full);
    assert(other.subrange(0, full.len() as int) =~= full);
    assert(left.subrange(0, size) =~= right.subrange(0, size)) by {
        assert forall|k: int| 0 <= k < size implies left[k] == right[k] by {
            assert(one[length + 1 + k] == full[length + 1 + k]);
            assert(other[length + 1 + k] == full[length + 1 + k]);
        }
    }
    if one != full {
        assert(left[size] == one[full.len() as int]);
    }
    if other != full {
        assert(right[size] == other[full.len() as int]);
    }
    assert(is_common_prefix(left, right, size));
}

impl<Value> BuilderNode<Value> {
    /// A lean node that is of use holds a value for some label.
    proof fn lemma_has_entry(self) -> (key: Seq<u8>)
        requires
            self.wf(),
            self.fit(),
            self.lean(),
        ensures
            self.entry(key) is Some,
        decreases self,
    {
        if self.value is Some {
            Seq::empty()
        } else {
            let child = self.children@[0];
            assert(child.wf() && child.fit() && child.lean());
            let below = child.lemma_has_entry();
            self.lemma_entry_above(0, below);
            join(child.label@, below)
        }
    }

    /// A label that the node holds a value for, and that is not empty, continues the
    /// label of a child, which holds the value for the rest.
    proof fn lemma_key_below(self, key: Seq<u8>) -> (i: int)
        requires
            self.wf(),
            key.len() > 0,
            self.entry(key) is Some,
        ensures
            takes(self.children@, i, key),
            self.children@[i].entry(path_suffix(key, self.children@[i].label@)) is Some,
            overlap(self.children@[i].label@, key),
    {
        let i = branch(self.children@, key);
        assert(takes(self.children@, i, key));
        self.lemma_entry_below(i, key);
        let head = self.children@[i].label@;
        assert(head.subrange(0, head.len() as int) =~= head);
        if key == head {
        } else {
            assert(key.subrange(0, head.len() as int) == head);
        }
        assert(is_common_prefix(head, key, head.len() as int));
        i
    }

    /// A label that the node holds a value for and that begins as `label` does
    /// continues the label of the one child that begins so.
    proof fn lemma_key_meets(self, i: int, label: Seq<u8>, key: Seq<u8>, length: int)
        requires
            self.wf(),
            meets(self.children@, i, label),
            self.entry(key) is Some,
            length > 0,
            is_common_prefix(key, label, length),
        ensures
            takes(self.children@, i, key),
            self.children@[i].entry(path_suffix(key, self.children@[i].label@)) is Some,
    {
        let j = self.lemma_key_below(key);
        assert(overlap(label, key)) by {
            assert(is_common_prefix(label, key, length));
        }
        lemma_overlap_common(self.children@[j].label@, label, key);
        assert(meets(self.children@, j, label));
        lemma_one_meeting(self.children@, i, j, label);
    }

    /// How far a label goes in the descent is how far it goes along with the labels that
    /// the node holds a value for.
    pub(super) proof fn lemma_depth(self, label: Seq<u8>)
        requires
            self.wf(),
            self.lean(),
            is_normalized(label),
        ensures
            label == join(consumed(label, self.landing(label).rest), self.landing(label).rest),
            is_normalized(self.landing(label).rest),
            is_depth(
                self.entries(),
                label,
                consumed(label, self.landing(label).rest).len() as int,
            ),
            self.landing(label).rest == rest_at(
                label,
                consumed(label, self.landing(label).rest).len() as int,
            ),
            consumed(label, self.landing(label).rest) == label.subrange(
                0,
                consumed(label, self.landing(label).rest).len() as int,
            ),
        decreases self,
    {
        let map = self.entries();
        if exists|i: int| meets(self.children@, i, label) {
            let i = choose|i: int| meets(self.children@, i, label);
            let child = self.children@[i];
            let head = child.label@;
            let length = longest_common(head, label);
            lemma_longest_exists(head, label);
            assert(child.wf() && child.fit() && child.lean());
            assert(length > 0) by {
                let n = choose|n: int| n > 0 && is_common_prefix(head, label, n);
                assert(is_common_prefix(head, label, n));
            }
            let next = past(label, length);
            let taken = label.subrange(0, length);
            if length < label.len() {
                super::laws::lemma_split_label(label, length);
            } else {
                assert(taken =~= label);
            }
            assert(label == join(taken, next));
            assert(is_normalized(next));
            if length < head.len() {
                assert(consumed(label, next) =~= taken);
                let below = child.lemma_has_entry();
                let witness = join(head, below);
                self.lemma_entry_above(i, below);
                lemma_suffix_join(head, below);
                assert(is_common_prefix(witness, label, length)) by {
                    assert(witness.subrange(0, head.len() as int) =~= head);
                    assert(witness.subrange(0, length) =~= head.subrange(0, length));
                    assert(witness[length] == head[length]);
                }
                assert(map.contains_key(witness));
                assert forall|key: Seq<u8>, size: int|
                    map.contains_key(key) && #[trigger] is_common_prefix(
                        key,
                        label,
                        size,
                    ) implies size <= length by {
                    if size > length {
                        self.lemma_key_meets(i, label, key, size);
                        if size <= head.len() {
                            lemma_common_head(head, key, label, size);
                        } else {
                            lemma_common_over(head, key, label, size);
                        }
                    }
                }
            } else {
                assert(head.subrange(0, length) =~= head);
                assert(taken == head);
                child.lemma_depth(next);
                let rest = child.landing(next).rest;
                let inner = consumed(next, rest);
                lemma_consumed_join(label, head, next, rest);
                let path = consumed(label, rest);
                assert(path == join(head, inner));
                assert(rest =~= rest_at(label, path.len() as int));
                assert(path =~= label.subrange(0, path.len() as int));
                if inner.len() == 0 {
                    let below = child.lemma_has_entry();
                    let witness = join(head, below);
                    self.lemma_entry_above(i, below);
                    lemma_suffix_join(head, below);
                    assert(is_common_prefix(witness, label, length)) by {
                        assert(witness.subrange(0, length) =~= head);
                    }
                    assert(map.contains_key(witness));
                } else {
                    let below = choose|key: Seq<u8>|
                        child.entries().contains_key(key) && #[trigger] is_common_prefix(
                            key,
                            next,
                            inner.len() as int,
                        );
                    let witness = join(head, below);
                    self.lemma_entry_above(i, below);
                    lemma_common_join(head, below, next, inner.len() as int);
                    assert(map.contains_key(witness));
                    assert(is_common_prefix(witness, label, path.len() as int));
                }
                assert forall|key: Seq<u8>, size: int|
                    map.contains_key(key) && #[trigger] is_common_prefix(
                        key,
                        label,
                        size,
                    ) implies size <= path.len() by {
                    if size > length {
                        self.lemma_key_meets(i, label, key, size);
                        lemma_common_over(head, key, label, size);
                        let tail = path_suffix(key, head);
                        assert(label.subrange(length + 1, label.len() as int) =~= next);
                        assert(child.entries().contains_key(tail));
                        assert(is_common_prefix(tail, next, size - length - 1));
                        if size == length + 1 {
                            assert(next[0] != SEPARATOR);
                        }
                    }
                }
            }
        } else {
            assert(consumed(label, label) =~= Seq::<u8>::empty());
            assert(label.subrange(0, 0) =~= Seq::<u8>::empty());
            assert forall|key: Seq<u8>, size: int|
                map.contains_key(key) && #[trigger] is_common_prefix(
                    key,
                    label,
                    size,
                ) implies size <= 0 by {
                if size > 0 {
                    let j = self.lemma_key_below(key);
                    assert(overlap(label, key)) by {
                        assert(is_common_prefix(label, key, size));
                    }
                    lemma_overlap_common(self.children@[j].label@, label, key);
                    assert(meets(self.children@, j, label));
                }
            }
        }
    }
}

impl<Value> BuilderNode<Value> {
    /// Two labels that part in a child part in the node, behind the label of the child.
    proof fn lemma_parts_up(self, i: int, inner: Seq<u8>, one: Seq<u8>, other: Seq<u8>)
        requires
            self.wf(),
            0 <= i < self.children@.len(),
            parts_at(self.children@[i].entries(), inner, one, other),
        ensures
            parts_at(
                self.entries(),
                join(self.children@[i].label@, inner),
                join(self.children@[i].label@, one),
                join(self.children@[i].label@, other),
            ),
    {
        let head = self.children@[i].label@;
        self.lemma_entry_above(i, one);
        self.lemma_entry_above(i, other);
        lemma_suffix_join(head, one);
        lemma_suffix_join(head, other);
        lemma_suffix_join(head, inner);
        lemma_path_prefix_join(head, inner, join(head, one));
        lemma_path_prefix_join(head, inner, join(head, other));
    }

    /// Two labels that part in the node behind the label of a child part in the child.
    proof fn lemma_parts_down(self, i: int, inner: Seq<u8>, one: Seq<u8>, other: Seq<u8>)
        requires
            self.wf(),
            0 <= i < self.children@.len(),
            parts_at(self.entries(), join(self.children@[i].label@, inner), one, other),
        ensures
            parts_at(
                self.children@[i].entries(),
                inner,
                path_suffix(one, self.children@[i].label@),
                path_suffix(other, self.children@[i].label@),
            ),
    {
        let head = self.children@[i].label@;
        lemma_path_prefix_join(head, inner, one);
        lemma_path_prefix_join(head, inner, other);
        assert(takes(self.children@, i, one));
        assert(takes(self.children@, i, other));
        self.lemma_entry_below(i, one);
        self.lemma_entry_below(i, other);
        lemma_join_suffix(head, one);
        lemma_join_suffix(head, other);
    }

    /// The node has a fork behind the label of a child where the child has one.
    proof fn lemma_fork_lift(self, i: int, inner: Seq<u8>)
        requires
            self.wf(),
            0 <= i < self.children@.len(),
        ensures
            is_fork(self.entries(), join(self.children@[i].label@, inner)) == is_fork(
                self.children@[i].entries(),
                inner,
            ),
    {
        let head = self.children@[i].label@;
        let child = self.children@[i];
        let path = join(head, inner);
        self.lemma_entry_above(i, inner);
        if is_fork(child.entries(), inner) && !child.entries().contains_key(inner) {
            let (one, other) = choose|one: Seq<u8>, other: Seq<u8>|
                parts_at(child.entries(), inner, one, other);
            self.lemma_parts_up(i, inner, one, other);
        }
        if is_fork(self.entries(), path) && !self.entries().contains_key(path) {
            let (one, other) = choose|one: Seq<u8>, other: Seq<u8>|
                parts_at(self.entries(), path, one, other);
            self.lemma_parts_down(i, inner, one, other);
        }
    }

    /// A lean node that is of use has a fork where it stands.
    proof fn lemma_fit_fork(self)
        requires
            self.wf(),
            self.fit(),
            self.lean(),
        ensures
            is_fork(self.entries(), Seq::empty()),
    {
        if self.value is None {
            let first = self.children@[0];
            let second = self.children@[1];
            assert(first.wf() && first.fit() && first.lean());
            assert(second.wf() && second.fit() && second.lean());
            let left = first.lemma_has_entry();
            let right = second.lemma_has_entry();
            let one = join(first.label@, left);
            let other = join(second.label@, right);
            self.lemma_entry_above(0, left);
            self.lemma_entry_above(1, right);
            lemma_suffix_join(first.label@, left);
            lemma_suffix_join(second.label@, right);
            assert(self.entry(one) is Some && self.entry(other) is Some);
            let i = self.lemma_key_below(one);
            lemma_one_branch(self.children@, 0, i, one);
            let j = self.lemma_key_below(other);
            lemma_one_branch(self.children@, 1, j, other);
            if overlap(one, other) {
                super::laws::lemma_overlap_symmetric(one, other);
                lemma_overlap_common(first.label@, other, one);
                lemma_overlap_common(first.label@, second.label@, other);
                assert(!overlap(first.label@, second.label@));
            }
            assert(path_suffix(one, Seq::<u8>::empty()) == one);
            assert(path_suffix(other, Seq::<u8>::empty()) == other);
            assert(parts_at(self.entries(), Seq::empty(), one, other));
        } else {
            assert(self.entries().contains_key(Seq::empty()));
        }
    }

    /// A label that the node holds a value for and that continues the first part of the
    /// label of a child continues the whole label of the child.
    proof fn lemma_key_within(self, i: int, length: int, key: Seq<u8>)
        requires
            self.wf(),
            0 <= i < self.children@.len(),
            0 < length < self.children@[i].label@.len(),
            self.children@[i].label@[length] == SEPARATOR,
            self.entry(key) is Some,
            is_path_prefix(self.children@[i].label@.subrange(0, length), key),
        ensures
            takes(self.children@, i, key),
    {
        let full = self.children@[i].label@;
        let head = full.subrange(0, length);
        assert(overlap(full, head)) by {
            assert(head.subrange(0, length) =~= full.subrange(0, length));
            assert(is_common_prefix(full, head, length));
        }
        let j = self.lemma_key_below(key);
        assert(overlap(head, key)) by {
            assert(head.subrange(0, length) =~= head);
            if key != head {
                assert(key.subrange(0, length) == head);
            }
            assert(is_common_prefix(head, key, length));
        }
        lemma_overlap_common(self.children@[j].label@, head, key);
        lemma_overlap_common(self.children@[j].label@, full, head);
        if i < j {
            assert(!overlap(full, self.children@[j].label@));
            super::laws::lemma_overlap_symmetric(full, self.children@[j].label@);
        } else if j < i {
            assert(!overlap(self.children@[j].label@, full));
        }
    }

    /// There is no fork at the first part of the label of a child that ends before the
    /// label does.
    proof fn lemma_no_fork_within(self, i: int, length: int)
        requires
            self.wf(),
            0 <= i < self.children@.len(),
            0 < length < self.children@[i].label@.len(),
            self.children@[i].label@[length] == SEPARATOR,
        ensures
            !is_fork(self.entries(), self.children@[i].label@.subrange(0, length)),
    {
        let full = self.children@[i].label@;
        let head = full.subrange(0, length);
        assert(self.children@[i].wf());
        super::laws::lemma_split_label(full, length);
        if self.entries().contains_key(head) {
            assert(is_path_prefix(head, head));
            self.lemma_key_within(i, length, head);
        }
        if exists|one: Seq<u8>, other: Seq<u8>| parts_at(self.entries(), head, one, other) {
            let (one, other) = choose|one: Seq<u8>, other: Seq<u8>|
                parts_at(self.entries(), head, one, other);
            self.lemma_key_within(i, length, one);
            self.lemma_key_within(i, length, other);
            lemma_tails_overlap(full, length, one, other);
        }
    }

    /// The descent for a label splits a node where, and only where, a trie of the labels
    /// that the node holds a value for has no node where the descent ends.
    pub(super) proof fn lemma_splits(self, label: Seq<u8>)
        requires
            self.wf(),
            self.lean(),
            is_normalized(label),
        ensures
            self.landing(label).split == !is_node(
                self.entries(),
                consumed(label, self.landing(label).rest),
            ),
        decreases self,
    {
        if exists|i: int| meets(self.children@, i, label) {
            let i = choose|i: int| meets(self.children@, i, label);
            let child = self.children@[i];
            let head = child.label@;
            let length = longest_common(head, label);
            lemma_longest_exists(head, label);
            assert(child.wf() && child.fit() && child.lean());
            assert(length > 0) by {
                let n = choose|n: int| n > 0 && is_common_prefix(head, label, n);
                assert(is_common_prefix(head, label, n));
            }
            let next = past(label, length);
            let taken = label.subrange(0, length);
            if length < label.len() {
                super::laws::lemma_split_label(label, length);
            } else {
                assert(taken =~= label);
            }
            assert(label == join(taken, next));
            if length < head.len() {
                assert(consumed(label, next) =~= taken);
                assert(taken =~= head.subrange(0, length));
                self.lemma_no_fork_within(i, length);
            } else {
                assert(head.subrange(0, length) =~= head);
                assert(taken == head);
                child.lemma_depth(next);
                child.lemma_splits(next);
                let rest = child.landing(next).rest;
                let inner = consumed(next, rest);
                lemma_consumed_join(label, head, next, rest);
                self.lemma_fork_lift(i, inner);
                if inner.len() == 0 {
                    child.lemma_fit_fork();
                    assert(inner =~= Seq::<u8>::empty());
                }
            }
        } else {
            assert(consumed(label, label) =~= Seq::<u8>::empty());
        }
    }
}

impl<Value> TrieBuilder<Value> {
    /// Where the descent for a label ends is told by the labels that the builder holds a
    /// value for. What is left of the label is what is left of it behind the part that it
    /// goes along with them; and a node is split unless a trie of these labels has a node
    /// for that part.
    pub proof fn lemma_landing(self, label: Seq<u8>, depth: int)
        requires
            self.wf(),
            is_normalized(label),
            is_depth(self@, label, depth),
        ensures
            self.landing(label).rest == rest_at(label, depth),
            self.landing(label).split == !is_node(self@, label.subrange(0, depth)),
    {
        self.root.lemma_depth(label);
        self.root.lemma_splits(label);
        lemma_one_depth(
            self@,
            label,
            depth,
            consumed(label, self.root.landing(label).rest).len() as int,
        );
    }

    /// A label goes some way along with the labels that the builder holds a value for:
    /// as far as its descent goes.
    pub proof fn lemma_landing_depth(self, label: Seq<u8>)
        requires
            self.wf(),
            is_normalized(label),
        ensures
            is_depth(self@, label, consumed(label, self.landing(label).rest).len() as int),
    {
        self.root.lemma_depth(label);
    }
}

} // verus!
