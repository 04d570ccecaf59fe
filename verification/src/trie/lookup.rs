//! Lookup in a trie.

use super::laws::lemma_prefixes_overlap;
use super::{among, stores, takes, BuilderNode, Tally, Trie, TrieBuilder};
use crate::label::{
    common_prefix_length, is_common_prefix, is_normalized, is_path_prefix, is_segment, join,
    lemma_join_assoc, overlap, SEPARATOR,
};
use crate::segments::{
    all_segments, label_of, lemma_label_of_first, lemma_label_of_grows, lemma_label_of_take,
    Segments,
};
use vstd::prelude::*;

verus! {

/// Whether `map` holds a value for the label that the first `count` of `segments` make up.
pub open spec fn hit<Value>(map: Map<Seq<u8>, Value>, segments: Seq<Seq<u8>>, count: int) -> bool {
    0 <= count <= segments.len() && map.contains_key(label_of(segments.take(count)))
}

/// Whether `found` is the longest match among the first segments, fewer than `limit`:
/// the greatest count of segments below `limit` that `map` holds a value for, or
/// nothing where there is no such count.
pub open spec fn longest_below<Value>(
    map: Map<Seq<u8>, Value>,
    segments: Seq<Seq<u8>>,
    found: Option<int>,
    limit: int,
) -> bool {
    match found {
        Some(count) => count < limit && hit(map, segments, count) && forall|other: int|
            other < limit && hit(map, segments, other) ==> other <= count,
        None => forall|other: int| other < limit ==> !hit(map, segments, other),
    }
}

/// Whether `found` is the longest match among the segments: the greatest count of first
/// segments that `map` holds a value for, or nothing where it holds a value for no count
/// of them.
pub open spec fn longest_match<Value>(
    map: Map<Seq<u8>, Value>,
    segments: Seq<Seq<u8>>,
    found: Option<int>,
) -> bool {
    longest_below(map, segments, found, segments.len() as int + 1)
}

/// The count of segments of the longest match among the segments, if `map` holds a value
/// for any count of first segments.
pub open spec fn best_count<Value>(map: Map<Seq<u8>, Value>, segments: Seq<Seq<u8>>) -> Option<
    int,
> {
    if exists|count: int| longest_match(map, segments, Some(count)) {
        Some(choose|count: int| longest_match(map, segments, Some(count)))
    } else {
        None
    }
}

/// There is one longest match at most.
pub proof fn lemma_best_count<Value>(
    map: Map<Seq<u8>, Value>,
    segments: Seq<Seq<u8>>,
    found: Option<int>,
)
    requires
        longest_match(map, segments, found),
    ensures
        best_count(map, segments) == found,
{
    if exists|count: int| longest_match(map, segments, Some(count)) {
        let count = choose|count: int| longest_match(map, segments, Some(count));
        assert(hit(map, segments, count));
    }
}

/// Among the counts of first segments up to `limit` there is a longest match, or no
/// match at all.
proof fn lemma_longest_exists<Value>(
    map: Map<Seq<u8>, Value>,
    segments: Seq<Seq<u8>>,
    limit: int,
) -> (found: Option<int>)
    requires
        0 <= limit <= segments.len() + 1,
    ensures
        longest_below(map, segments, found, limit),
    decreases limit,
{
    if limit == 0 {
        None
    } else if hit(map, segments, limit - 1) {
        Some(limit - 1)
    } else {
        lemma_longest_exists(map, segments, limit - 1)
    }
}

/// Longest match wins: where there is a value for some count of first segments, the
/// longest match is a count that is no smaller, and there is a value for it.
pub proof fn law_longest_match_wins<Value>(
    map: Map<Seq<u8>, Value>,
    segments: Seq<Seq<u8>>,
    count: int,
)
    requires
        hit(map, segments, count),
    ensures
        best_count(map, segments) matches Some(best) && count <= best && hit(
            map,
            segments,
            best,
        ),
{
    let found = lemma_longest_exists(map, segments, segments.len() as int + 1);
    lemma_best_count(map, segments, found);
}

/// Two labels that both begin with a given segment overlap.
proof fn lemma_segment_overlap(a: Seq<u8>, b: Seq<u8>, segment: Seq<u8>)
    requires
        is_segment(segment),
        overlap(a, segment),
        overlap(b, segment),
    ensures
        overlap(a, b),
{
    let n = choose|n: int| n > 0 && is_common_prefix(a, segment, n);
    let m = choose|m: int| m > 0 && is_common_prefix(b, segment, m);
    assert(n == segment.len() && m == segment.len());
    assert(a.subrange(0, n) =~= b.subrange(0, n));
    assert(is_common_prefix(a, b, n));
}

/// A label overlaps with what continues it.
proof fn lemma_path_prefix_overlap(prefix: Seq<u8>, key: Seq<u8>)
    requires
        prefix.len() > 0,
        is_path_prefix(prefix, key),
    ensures
        overlap(prefix, key),
        is_common_prefix(prefix, key, prefix.len() as int),
{
    assert(prefix.subrange(0, prefix.len() as int) =~= prefix);
    if key == prefix {
        assert(key.subrange(0, prefix.len() as int) =~= prefix);
    }
    assert(is_common_prefix(prefix, key, prefix.len() as int));
}

/// Where what is left of a label does not begin with the next segment, the label is not
/// continued by a key that has this segment at that place.
proof fn lemma_mismatch(
    label: Seq<u8>,
    matched: int,
    segment: Seq<u8>,
    rest: Seq<u8>,
    key: Seq<u8>,
)
    requires
        is_normalized(label),
        0 < matched < label.len(),
        label[matched] == SEPARATOR,
        key == join(label.subrange(0, matched), rest),
        is_segment(segment),
        is_path_prefix(segment, rest),
        forall|n: int| #[trigger]
            is_common_prefix(segment, label.subrange(matched + 1, label.len() as int), n) ==> n
                <= 0,
    ensures
        !is_path_prefix(label, key),
{
    if is_path_prefix(label, key) {
        let tail = label.subrange(matched + 1, label.len() as int);
        let size = segment.len() as int;
        assert(rest.len() >= size);
        assert(key =~= label.subrange(0, matched).push(SEPARATOR) + rest);
        assert(matched + 1 < label.len());
        assert(key.subrange(0, label.len() as int) =~= label);
        assert forall|i: int| 0 <= i < tail.len() implies tail[i] == rest[i] by {
            assert(key[matched + 1 + i] == label[matched + 1 + i]);
        }
        assert(rest.subrange(0, size) =~= segment);
        if tail.len() < size {
            assert(key[label.len() as int] == SEPARATOR);
            assert(rest[tail.len() as int] == key[label.len() as int]);
            assert(rest.subrange(0, size)[tail.len() as int] == segment[tail.len() as int]);
            assert(false);
        }
        assert(tail.subrange(0, size) =~= segment.subrange(0, size)) by {
            assert forall|i: int| 0 <= i < size implies tail[i] == segment[i] by {
                assert(rest.subrange(0, size)[i] == segment[i]);
            }
        }
        if size < tail.len() {
            assert(rest != segment);
            assert(rest[size] == SEPARATOR);
        }
        assert(is_common_prefix(segment, tail, size));
    }
}

impl<Value> BuilderNode<Value> {
    /// There is no entry for a key that begins with a segment which a child overlaps
    /// with, unless the label of that child is continued by the key.
    proof fn lemma_entry_off_branch(self, at: int, segment: Seq<u8>, key: Seq<u8>)
        requires
            self.wf(),
            0 <= at < self.children@.len(),
            overlap(self.children@[at].label@, segment),
            is_segment(segment),
            is_path_prefix(segment, key),
            !is_path_prefix(self.children@[at].label@, key),
        ensures
            self.entry(key) is None,
    {
        assert forall|i: int| !takes(self.children@, i, key) by {
            if takes(self.children@, i, key) {
                let label = self.children@[i].label@;
                lemma_prefixes_overlap(label, segment, key);
                lemma_segment_overlap(label, self.children@[at].label@, segment);
                if i < at {
                    assert(!overlap(self.children@[i].label@, self.children@[at].label@));
                } else if at < i {
                    assert(!overlap(self.children@[at].label@, self.children@[i].label@));
                    super::laws::lemma_overlap_symmetric(label, self.children@[at].label@);
                }
            }
        }
        self.lemma_entry_nowhere(key);
    }

    /// There is no entry for a key that begins with a segment which no child overlaps
    /// with.
    proof fn lemma_entry_no_branch(self, segment: Seq<u8>, key: Seq<u8>)
        requires
            forall|i: int|
                0 <= i < self.children@.len() ==> !overlap(
                    (#[trigger] self.children@[i]).label@,
                    segment,
                ),
            segment.len() > 0,
            is_path_prefix(segment, key),
        ensures
            self.entry(key) is None,
    {
        assert forall|i: int| !takes(self.children@, i, key) by {
            if takes(self.children@, i, key) {
                lemma_prefixes_overlap(self.children@[i].label@, segment, key);
            }
        }
        self.lemma_entry_nowhere(key);
    }
}

impl<Value> BuilderNode<Value> {
    /// Where the label of a child is matched by segments up to a separator, and what is
    /// left of it does not begin with the segment that follows, or none follows, there is
    /// no entry for any of the labels that the segments make up.
    proof fn lemma_stuck(
        self,
        at: int,
        segments: Seq<Seq<u8>>,
        depth: int,
        upto: int,
        matched: int,
        count: int,
    )
        requires
            self.wf(),
            0 <= at < self.children@.len(),
            all_segments(segments),
            0 <= depth < upto <= segments.len(),
            0 < matched < self.children@[at].label@.len(),
            self.children@[at].label@.subrange(0, matched) == label_of(
                segments.subrange(depth, upto),
            ),
            self.children@[at].label@[matched] == SEPARATOR,
            upto == segments.len() || forall|n: int| #[trigger]
                is_common_prefix(
                    segments[upto],
                    self.children@[at].label@.subrange(
                        matched + 1,
                        self.children@[at].label@.len() as int,
                    ),
                    n,
                ) ==> n <= 0,
            depth < count <= segments.len(),
        ensures
            self.entry(label_of(segments.subrange(depth, count))) is None,
    {
        let label = self.children@[at].label@;
        let segment = segments[depth];
        let key = label_of(segments.subrange(depth, count));
        let head = label.subrange(0, matched);
        assert(self.children@[at].wf());
        lemma_label_of_first(segments, depth, upto);
        lemma_label_of_first(segments, depth, count);
        assert(is_segment(segment));
        assert(overlap(label, segment)) by {
            let size = segment.len() as int;
            assert(head.len() >= size);
            assert(label.subrange(0, size) =~= segment.subrange(0, size)) by {
                assert forall|i: int| 0 <= i < size implies label[i] == segment[i] by {
                    assert(head[i] == label[i]);
                    if head != segment {
                        assert(head.subrange(0, size)[i] == segment[i]);
                    }
                }
            }
            if size < matched {
                assert(head[size] == label[size]);
            }
            assert(is_common_prefix(label, segment, size));
        }
        if count < upto {
            lemma_label_of_grows(segments, depth, count, upto);
        } else if count > upto {
            assert(segments.subrange(depth, count) =~= segments.subrange(depth, upto)
                + segments.subrange(upto, count));
            crate::segments::lemma_label_of_concat(
                segments.subrange(depth, upto),
                segments.subrange(upto, count),
            );
            lemma_label_of_first(segments, upto, count);
            lemma_mismatch(
                label,
                matched,
                segments[upto],
                label_of(segments.subrange(upto, count)),
                key,
            );
        }
        self.lemma_entry_off_branch(at, segment, key);
    }

    /// Where the label of a child is matched by segments, there is no entry for a label
    /// that fewer of the segments make up.
    proof fn lemma_passed(
        self,
        at: int,
        segments: Seq<Seq<u8>>,
        depth: int,
        upto: int,
        count: int,
    )
        requires
            self.wf(),
            0 <= at < self.children@.len(),
            all_segments(segments),
            0 <= depth < count < upto <= segments.len(),
            self.children@[at].label@ == label_of(segments.subrange(depth, upto)),
        ensures
            self.entry(label_of(segments.subrange(depth, count))) is None,
    {
        let label = self.children@[at].label@;
        let segment = segments[depth];
        let key = label_of(segments.subrange(depth, count));
        lemma_label_of_first(segments, depth, upto);
        lemma_label_of_first(segments, depth, count);
        assert(is_segment(segment));
        lemma_path_prefix_overlap(segment, label);
        super::laws::lemma_overlap_symmetric(segment, label);
        lemma_label_of_grows(segments, depth, count, upto);
        self.lemma_entry_off_branch(at, segment, key);
    }
}

/// The count of segments of a match, if there is one.
pub open spec fn count_of<Value>(result: Option<(&Value, usize)>) -> Option<int> {
    match result {
        Some((_, count)) => Some(count as int),
        None => None,
    }
}

/// Whether the value of a match, if there is one, is the one that `map` holds for the
/// segments that were counted.
pub open spec fn value_of<Value>(
    map: Map<Seq<u8>, Value>,
    segments: Seq<Seq<u8>>,
    result: Option<(&Value, usize)>,
) -> bool {
    match result {
        Some((value, count)) => *value == map[label_of(segments.take(count as int))],
        None => true,
    }
}

impl<Value> Trie<Value> {
    /// Returns a builder instance that can be used to set up the trie.
    pub fn builder() -> (builder: TrieBuilder<Value>)
        ensures
            builder.wf(),
            builder@ == Map::<Seq<u8>, Value>::empty(),
            builder.tally(Tally::Nodes) == 1,
            builder.tally(Tally::LabelBytes) == 0,
            builder.tally(Tally::Values) == 0,
            forall|label: Seq<u8>| #[trigger]
                builder.landing(label) == (super::Landing {
                    rest: label,
                    split: false,
                    label: Seq::empty(),
                    tail: Seq::empty(),
                }),
    {
        TrieBuilder::<Value>::new()
    }

    /// The lengths of the three vectors: the number of nodes, of label bytes and of
    /// values that the trie holds.
    pub fn sizes(&self) -> (sizes: (usize, usize, usize))
        ensures
            sizes.0 == self.tally(Tally::Nodes),
            sizes.1 == self.tally(Tally::LabelBytes),
            sizes.2 == self.tally(Tally::Values),
    {
        (self.nodes.len(), self.labels.len(), self.values.len())
    }

    /// What a match that is the longest among the first `depth` segments and one more is
    /// among them all, where no label of more segments has an entry below the node that
    /// these lead to.
    proof fn lemma_longest(
        self,
        segments: Seq<Seq<u8>>,
        found: Option<int>,
        depth: int,
        model: BuilderNode<Value>,
    )
        requires
            0 <= depth <= segments.len(),
            longest_below(self@, segments, found, depth + 1),
            forall|key: Seq<u8>| #[trigger]
                model.entry(key) == self.models@[0].entry(
                    join(label_of(segments.take(depth)), key),
                ),
            forall|count: int|
                depth < count <= segments.len() ==> model.entry(
                    #[trigger] label_of(segments.subrange(depth, count)),
                ) is None,
        ensures
            longest_match(self@, segments, found),
    {
        assert forall|count: int| depth < count implies !hit(self@, segments, count) by {
            if count <= segments.len() {
                lemma_label_of_take(segments, depth, count);
                let key = label_of(segments.subrange(depth, count));
                assert(model.entry(key) is None);
            }
        }
    }

    /// Looks up a particular label in the trie.
    ///
    /// The label is identified by the segments it is made of, which are handed out one
    /// after another.
    ///
    /// This will return the value corresponding to the longest matching path if any. In
    /// addition, the result contains the number of segments consumed.
    pub fn lookup<'a>(&'a self, label: Segments<'_>) -> (result: Option<(&'a Value, usize)>)
        ensures
            longest_match(self@, label@, count_of(result)),
            count_of(result) == best_count(self@, label@),
            value_of(self@, label@, result),
    {
        proof {
            assert forall|found: Option<int>| #[trigger]
                longest_match(self@, label@, found) implies best_count(self@, label@)
                == found by {
                lemma_best_count(self@, label@, found);
            }
        }
        let mut cursor = label;
        let ghost segments = label@;
        let ghost root = self.models@[0];
        proof {
            use_type_invariant(self);
            use_type_invariant(&cursor);
            cursor.lemma_segments();
            assert(segments.skip(0) =~= segments);
            assert(segments.take(0) =~= Seq::<Seq<u8>>::empty());
        }
        let mut result: Option<(&'a Value, usize)> = None;
        let mut current: usize = 0;
        let mut current_segment: usize = 0;
        loop
            invariant
                self.wf(),
                segments == label@,
                root == self.models@[0],
                all_segments(segments),
                segments.len() < usize::MAX,
                current < self.nodes@.len(),
                self.models@[current as int].wf(),
                current_segment <= segments.len(),
                cursor@ == segments.skip(current_segment as int),
                forall|key: Seq<u8>| #[trigger]
                    self.models@[current as int].entry(key) == root.entry(
                        join(label_of(segments.take(current_segment as int)), key),
                    ),
                longest_below(self@, segments, count_of(result), current_segment as int),
                value_of(self@, segments, result),
            decreases segments.len() - current_segment,
        {
            let ghost model = self.models@[current as int];
            let ghost depth = current_segment as int;
            let ghost path = label_of(segments.take(depth));
            let ghost here = current as int;
            proof {
                reveal(stores);
                assert(stores(self.nodes@, self.labels@, self.values@, self.models@, here, 1));
                assert(model.entry(Seq::empty()) == root.entry(join(path, Seq::empty())));
            }
            let node = &self.nodes[current];
            if let Some(value) = node.value {
                result = Some((&self.values[value], current_segment));
            }
            let ghost best = result;
            proof {
                assert(longest_below(self@, segments, count_of(result), depth + 1));
            }

            let segment = match cursor.next() {
                Some(segment) => {
                    current_segment += 1;
                    segment
                },
                None => {
                    // End of label, return whatever we've got
                    return result;
                },
            };
            proof {
                assert(segment@ == segments[depth]);
                assert(segments.skip(depth).skip(1) =~= segments.skip(depth + 1));
                assert(segments.subrange(depth, depth + 1) =~= seq![segments[depth]]);
                lemma_label_of_first(segments, depth, depth + 1);
                assert(segments.subrange(depth + 1, depth + 1) =~= Seq::<Seq<u8>>::empty());
                assert(label_of(segments.subrange(depth + 1, depth + 1)).len() == 0);
                assert(label_of(segments.subrange(depth, depth + 1)) == segments[depth]);
            }

            let mut found_match = false;
            let first = node.children.start;
            let end = node.children.end;
            let mut child = first;
            while child < end && !found_match
                invariant
                    self.wf(),
                    segments == label@,
                    root == self.models@[0],
                    all_segments(segments),
                    segments.len() < usize::MAX,
                    0 <= depth < segments.len(),
                    segment@ == segments[depth],
                    0 <= here < self.nodes@.len(),
                    model == self.models@[here],
                    label_of(segments.subrange(depth, depth + 1)) == segments[depth],
                    model.wf(),
                    first == self.nodes@[here].children.start,
                    end == self.nodes@[here].children.end,
                    first <= child <= end,
                    forall|key: Seq<u8>| #[trigger]
                        model.entry(key) == root.entry(join(label_of(segments.take(depth)), key)),
                    longest_below(self@, segments, count_of(best), depth + 1),
                    value_of(self@, segments, best),
                    !found_match ==> {
                        &&& result == best
                        &&& current_segment == depth + 1
                        &&& cursor@ == segments.skip(depth + 1)
                        &&& forall|at: int|
                            first <= at < child ==> !overlap(
                                (#[trigger] self.models@[at]).label@,
                                segment@,
                            )
                    },
                    found_match ==> {
                        &&& current < self.nodes@.len()
                        &&& self.models@[current as int].wf()
                        &&& depth < current_segment <= segments.len()
                        &&& cursor@ == segments.skip(current_segment as int)
                        &&& forall|key: Seq<u8>| #[trigger]
                            self.models@[current as int].entry(key) == root.entry(
                                join(label_of(segments.take(current_segment as int)), key),
                            )
                        &&& longest_below(self@, segments, count_of(result), current_segment as int)
                        &&& value_of(self@, segments, result)
                    },
                decreases end - child, (if found_match { 0int } else { 1int }),
            {
                proof {
                    reveal(stores);
                    assert(stores(self.nodes@, self.labels@, self.values@, self.models@, here, 1));
                    assert(stores(
                        self.nodes@,
                        self.labels@,
                        self.values@,
                        self.models@,
                        child as int,
                        1,
                    ));
                    assert(among(
                        model.children@,
                        0,
                        model.children@.len() as int,
                        self.models@[child as int],
                    ));
                }
                let ghost at = choose|at: int|
                    0 <= at < model.children@.len() && 0 <= at < model.children@.len()
                        && #[trigger] model.children@[at] == self.models@[child as int];
                let ghost below = self.models@[child as int];
                let ghost branch = below.label@;
                let child_node = &self.nodes[child];
                let mut label_start = child_node.label.start;
                let label_end = child_node.label.end;
                let ghost begin = label_start;
                let length =
                common_prefix_length(segment, &self.labels.as_slice()[label_start..label_end]);
                if length > 0 {
                    label_start += length;
                    proof {
                        assert(model.children@[at].wf());
                        assert(length == segment@.len());
                        assert(segment@.subrange(0, length as int) =~= segment@);
                        assert(branch.subrange(0, length as int) == segment@);
                    }

                    // Keep matching more segments until there is no more label left
                    while label_end > label_start
                        invariant
                            self.wf(),
                            segments == label@,
                            root == self.models@[0],
                            all_segments(segments),
                            segments.len() < usize::MAX,
                            0 <= at < model.children@.len(),
                            model.children@[at] == below,
                            branch == below.label@,
                            is_normalized(branch),
                            model.wf(),
                            begin <= label_end <= self.labels@.len(),
                            branch == self.labels@.subrange(begin as int, label_end as int),
                            begin < label_start <= label_end,
                            0 <= depth < current_segment <= segments.len(),
                            cursor@ == segments.skip(current_segment as int),
                            branch.subrange(0, label_start - begin) == label_of(
                                segments.subrange(depth, current_segment as int),
                            ),
                            label_start < label_end ==> branch[label_start - begin] == SEPARATOR,
                            forall|key: Seq<u8>| #[trigger]
                                model.entry(key) == root.entry(
                                    join(label_of(segments.take(depth)), key),
                                ),
                            longest_below(self@, segments, count_of(result), depth + 1),
                            value_of(self@, segments, result),
                        decreases label_end - label_start,
                    {
                        let ghost matched = label_start - begin;
                        let ghost upto = current_segment as int;
                        // Skip separator character
                        label_start += 1;

                        let segment = match cursor.next() {
                            Some(segment) => {
                                current_segment += 1;
                                segment
                            },
                            None => {
                                // End of label, return whatever we've got
                                proof {
                                    assert forall|count: int|
                                        depth < count <= segments.len() implies model.entry(
                                        #[trigger] label_of(segments.subrange(depth, count)),
                                    ) is None by {
                                        model.lemma_stuck(
                                            at,
                                            segments,
                                            depth,
                                            upto,
                                            matched,
                                            count,
                                        );
                                    }
                                    self.lemma_longest(segments, count_of(result), depth, model);
                                }
                                return result;
                            },
                        };
                        proof {
                            assert(segment@ == segments[upto]);
                            assert(segments.skip(upto).skip(1) =~= segments.skip(upto + 1));
                            assert(matched + 1 < branch.len());
                            assert(self.labels@.subrange(label_start as int, label_end as int)
                                =~= branch.subrange(matched + 1, branch.len() as int));
                        }

                        let length =
                        common_prefix_length(
                            segment,
                            &self.labels.as_slice()[label_start..label_end],
                        );
                        if length > 0 {
                            label_start += length;
                            proof {
                                let tail = branch.subrange(matched + 1, branch.len() as int);
                                assert(length == segment@.len());
                                assert(segment@.subrange(0, length as int) =~= segment@);
                                assert(segments.subrange(depth, upto + 1).drop_last()
                                    =~= segments.subrange(depth, upto));
                                assert(branch.subrange(0, label_start - begin)
                                    =~= branch.subrange(0, matched).push(SEPARATOR) + segment@) by {
                                    assert forall|i: int| 0 <= i < length implies branch[matched
                                        + 1 + i] == segment@[i] by {
                                        assert(tail.subrange(0, length as int)[i] == segment@[i]);
                                    }
                                }
                                if label_start < label_end {
                                    assert(tail[length as int] == SEPARATOR);
                                }
                            }
                        } else {
                            // Got only a partial match
                            proof {
                                assert forall|count: int|
                                    depth < count <= segments.len() implies model.entry(
                                    #[trigger] label_of(segments.subrange(depth, count)),
                                ) is None by {
                                    model.lemma_stuck(at, segments, depth, upto, matched, count);
                                }
                                self.lemma_longest(segments, count_of(result), depth, model);
                            }
                            return result;
                        }
                    }

                    found_match = true;
                    current = child;
                    proof {
                        let upto = current_segment as int;
                        assert(branch.subrange(0, branch.len() as int) =~= branch);
                        lemma_label_of_take(segments, depth, upto);
                        assert forall|key: Seq<u8>| #[trigger]
                            below.entry(key) == root.entry(
                                join(label_of(segments.take(upto)), key),
                            ) by {
                            model.lemma_entry_above(at, key);
                            lemma_join_assoc(label_of(segments.take(depth)), branch, key);
                        }
                        assert(below.wf());
                        assert forall|other: int|
                            other < upto && hit(self@, segments, other) implies other <= depth by {
                            if depth < other {
                                model.lemma_passed(at, segments, depth, upto, other);
                                lemma_label_of_take(segments, depth, other);
                                assert(model.entry(label_of(segments.subrange(depth, other)))
                                    == root.entry(
                                    join(
                                        label_of(segments.take(depth)),
                                        label_of(segments.subrange(depth, other)),
                                    ),
                                ));
                            }
                        }
                    }
                } else {
                    proof {
                        assert(!overlap(branch, segment@)) by {
                            if overlap(branch, segment@) {
                                let n = choose|n: int|
                                    n > 0 && is_common_prefix(branch, segment@, n);
                                assert(is_common_prefix(segment@, branch, n));
                            }
                        }
                    }
                    child += 1;
                }
            }

            if !found_match {
                proof {
                    reveal(stores);
                    assert(stores(self.nodes@, self.labels@, self.values@, self.models@, here, 1));
                    assert forall|i: int| 0 <= i < model.children@.len() implies !overlap(
                        (#[trigger] model.children@[i]).label@,
                        segment@,
                    ) by {
                        assert(among(self.models@, first as int, end as int, model.children@[i]));
                    }
                    assert forall|count: int|
                        depth < count <= segments.len() implies model.entry(
                        #[trigger] label_of(segments.subrange(depth, count)),
                    ) is None by {
                        lemma_label_of_first(segments, depth, count);
                        model.lemma_entry_no_branch(
                            segment@,
                            label_of(segments.subrange(depth, count)),
                        );
                    }
                    self.lemma_longest(segments, count_of(result), depth, model);
                }
                return result;
            }
        }
    }
}

} // verus!
