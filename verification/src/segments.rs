//! The segments of a path, one after another.

use crate::label::{
    is_normalized, is_path_prefix, is_segment, join, lemma_join_assoc, lemma_suffix_join,
    SEPARATOR,
};
use vstd::prelude::*;

verus! {

/// The segments left in `path` when `open` is what was read of the segment at hand: the
/// runs of bytes between separators that are not empty, in their order.
pub open spec fn split(path: Seq<u8>, open: Seq<u8>) -> Seq<Seq<u8>>
    decreases path.len(),
{
    let closed = if open.len() > 0 {
        seq![open]
    } else {
        Seq::empty()
    };
    if path.len() == 0 {
        closed
    } else if path[0] == SEPARATOR {
        closed + split(path.skip(1), Seq::empty())
    } else {
        split(path.skip(1), open.push(path[0]))
    }
}

/// The segments of a path: the runs of bytes between separators that are not empty.
pub open spec fn segments_of(path: Seq<u8>) -> Seq<Seq<u8>> {
    split(path, Seq::empty())
}

/// What is left of `path` behind its first segment, where `inside` tells whether the
/// segment has begun. Separators before the segment are passed over, those behind it
/// are left.
pub open spec fn past_segment(path: Seq<u8>, inside: bool) -> Seq<u8>
    decreases path.len(),
{
    if path.len() == 0 {
        path
    } else if path[0] == SEPARATOR {
        if inside {
            path
        } else {
            past_segment(path.skip(1), false)
        }
    } else {
        past_segment(path.skip(1), true)
    }
}

/// What is left of `path` behind its first `count` segments: it begins at the end of the
/// last of them. Behind more segments than the path has nothing is left.
pub open spec fn tail_after(path: Seq<u8>, count: nat) -> Seq<u8>
    decreases count,
{
    if count == 0 {
        path
    } else {
        tail_after(past_segment(path, false), (count - 1) as nat)
    }
}

/// The label that segments make up: the segments with separators between them.
pub open spec fn label_of(segments: Seq<Seq<u8>>) -> Seq<u8>
    decreases segments.len(),
{
    if segments.len() == 0 {
        Seq::empty()
    } else {
        join(label_of(segments.drop_last()), segments.last())
    }
}

/// Whether every one of `segments` is a segment: not empty, and free of separators.
pub open spec fn all_segments(segments: Seq<Seq<u8>>) -> bool {
    forall|i: int| 0 <= i < segments.len() ==> is_segment(#[trigger] segments[i])
}

/// What a path splits into are segments, and at most one for every two bytes.
pub proof fn lemma_split_segments(path: Seq<u8>, open: Seq<u8>)
    requires
        forall|i: int| 0 <= i < open.len() ==> open[i] != SEPARATOR,
    ensures
        all_segments(split(path, open)),
        2 * split(path, open).len() <= path.len() + 1 + (if open.len() > 0 {
            1int
        } else {
            0int
        }),
    decreases path.len(),
{
    if path.len() == 0 {
    } else if path[0] == SEPARATOR {
        lemma_split_segments(path.skip(1), Seq::empty());
    } else {
        lemma_split_segments(path.skip(1), open.push(path[0]));
    }
}

/// What is left behind a segment is the end of the path.
pub proof fn lemma_past_segment_suffix(path: Seq<u8>, inside: bool)
    ensures
        past_segment(path, inside).len() <= path.len(),
        past_segment(path, inside) == path.skip(path.len() - past_segment(path, inside).len()),
    decreases path.len(),
{
    if path.len() == 0 {
        assert(path.skip(0) =~= path);
    } else if path[0] == SEPARATOR && inside {
        assert(path.skip(0) =~= path);
    } else {
        let next = path.skip(1);
        let flag = path[0] != SEPARATOR;
        lemma_past_segment_suffix(next, flag);
        let left = past_segment(next, flag);
        assert(next.skip(next.len() - left.len()) =~= path.skip(path.len() - left.len()));
    }
}

/// What is left behind some segments is the end of the path, byte for byte.
pub proof fn law_tail_is_suffix(path: Seq<u8>, count: nat)
    ensures
        tail_after(path, count).len() <= path.len(),
        tail_after(path, count) == path.skip(path.len() - tail_after(path, count).len()),
    decreases count,
{
    if count == 0 {
        assert(path.skip(0) =~= path);
    } else {
        let next = past_segment(path, false);
        lemma_past_segment_suffix(path, false);
        law_tail_is_suffix(next, (count - 1) as nat);
        let left = tail_after(next, (count - 1) as nat);
        assert(next.skip(next.len() - left.len()) =~= path.skip(path.len() - left.len()));
    }
}

/// The label of segments put one behind the other is the join of their labels.
pub proof fn lemma_label_of_concat(a: Seq<Seq<u8>>, b: Seq<Seq<u8>>)
    ensures
        label_of(a + b) == join(label_of(a), label_of(b)),
    decreases b.len(),
{
    if b.len() == 0 {
        assert(a + b =~= a);
    } else {
        assert((a + b).drop_last() =~= a + b.drop_last());
        lemma_label_of_concat(a, b.drop_last());
        lemma_join_assoc(label_of(a), label_of(b.drop_last()), b.last());
    }
}

/// The label of the first segments is continued by the label of those that follow.
pub proof fn lemma_label_of_take(segments: Seq<Seq<u8>>, from: int, to: int)
    requires
        0 <= from <= to <= segments.len(),
    ensures
        label_of(segments.take(to)) == join(
            label_of(segments.take(from)),
            label_of(segments.subrange(from, to)),
        ),
{
    assert(segments.take(to) =~= segments.take(from) + segments.subrange(from, to));
    lemma_label_of_concat(segments.take(from), segments.subrange(from, to));
}

/// A label grows with every segment.
pub proof fn lemma_label_of_grows(segments: Seq<Seq<u8>>, from: int, short: int, long: int)
    requires
        all_segments(segments),
        0 <= from <= short < long <= segments.len(),
    ensures
        label_of(segments.subrange(from, short)).len() < label_of(
            segments.subrange(from, long),
        ).len(),
    decreases long,
{
    let whole = segments.subrange(from, long);
    assert(whole.drop_last() =~= segments.subrange(from, long - 1));
    assert(is_segment(segments[long - 1]));
    assert(whole.last() == segments[long - 1]);
    if short < long - 1 {
        lemma_label_of_grows(segments, from, short, long - 1);
    }
}

/// A label continues its first segment.
pub proof fn lemma_label_of_first(segments: Seq<Seq<u8>>, from: int, to: int)
    requires
        0 <= from < to <= segments.len(),
    ensures
        is_path_prefix(segments[from], label_of(segments.subrange(from, to))),
        label_of(segments.subrange(from, to)) == join(
            segments[from],
            label_of(segments.subrange(from + 1, to)),
        ),
{
    let head = seq![segments[from]];
    assert(segments.subrange(from, to) =~= head + segments.subrange(from + 1, to));
    lemma_label_of_concat(head, segments.subrange(from + 1, to));
    assert(head.drop_last() =~= Seq::<Seq<u8>>::empty());
    assert(label_of(head.drop_last()).len() == 0);
    assert(head.last() == segments[from]);
    assert(label_of(head) == segments[from]);
    lemma_suffix_join(segments[from], label_of(segments.subrange(from + 1, to)));
}

/// The label that segments make up is normalized.
pub proof fn lemma_label_of_normalized(segments: Seq<Seq<u8>>)
    requires
        all_segments(segments),
    ensures
        is_normalized(label_of(segments)),
        segments.len() > 0 ==> label_of(segments).len() > 0,
    decreases segments.len(),
{
    if segments.len() > 0 {
        let front = label_of(segments.drop_last());
        let last = segments.last();
        lemma_label_of_normalized(segments.drop_last());
        assert(is_segment(last));
        let whole = join(front, last);
        if front.len() > 0 {
            assert forall|i: int| 0 <= i < whole.len() && #[trigger] whole[i] == SEPARATOR implies 0
                < i && i + 1 < whole.len() && whole[i + 1] != SEPARATOR by {
                if i < front.len() {
                    assert(front[i] == SEPARATOR);
                } else if i > front.len() {
                    assert(last[i - front.len() - 1] == SEPARATOR);
                }
            }
        }
    }
}

/// What is left behind one segment more is what is left behind the next segment of
/// what was left.
pub proof fn lemma_tail_step(path: Seq<u8>, count: nat)
    ensures
        tail_after(path, count + 1) == past_segment(tail_after(path, count), false),
    decreases count,
{
    let next = past_segment(path, false);
    assert(tail_after(path, count + 1) == tail_after(next, count));
    if count > 0 {
        lemma_tail_step(next, (count - 1) as nat);
        assert(tail_after(path, count) == tail_after(next, (count - 1) as nat));
    } else {
        assert(tail_after(next, 0) == next);
    }
}

/// The label that the segments of a path make up is no longer than the path.
pub proof fn lemma_label_of_length(path: Seq<u8>, open: Seq<u8>)
    ensures
        label_of(split(path, open)).len() <= path.len() + open.len(),
    decreases path.len(),
{
    let closed: Seq<Seq<u8>> = if open.len() > 0 {
        seq![open]
    } else {
        Seq::empty()
    };
    assert(label_of(closed).len() <= open.len()) by {
        if open.len() > 0 {
            assert(closed.drop_last() =~= Seq::<Seq<u8>>::empty());
            assert(label_of(closed.drop_last()).len() == 0);
            assert(closed.last() == open);
        }
    }
    if path.len() == 0 {
    } else if path[0] == SEPARATOR {
        lemma_label_of_length(path.skip(1), Seq::empty());
        lemma_label_of_concat(closed, split(path.skip(1), Seq::empty()));
    } else {
        lemma_label_of_length(path.skip(1), open.push(path[0]));
    }
}

/// What is left behind a segment is nothing, or begins with a separator.
pub proof fn lemma_past_segment_start(path: Seq<u8>, inside: bool)
    ensures
        past_segment(path, inside).len() > 0 ==> past_segment(path, inside)[0] == SEPARATOR,
    decreases path.len(),
{
    if path.len() == 0 {
    } else if path[0] == SEPARATOR && inside {
    } else {
        lemma_past_segment_start(path.skip(1), path[0] != SEPARATOR);
    }
}

/// What is left behind one segment or more is nothing, or begins with a separator.
pub proof fn lemma_tail_start(path: Seq<u8>, count: nat)
    requires
        count > 0,
    ensures
        tail_after(path, count).len() > 0 ==> tail_after(path, count)[0] == SEPARATOR,
    decreases count,
{
    lemma_tail_step(path, (count - 1) as nat);
    lemma_past_segment_start(tail_after(path, (count - 1) as nat), false);
}

/// The segments of a path, handed out one after another. A token may be put before
/// them, which is handed out first.
pub struct Segments<'a> {
    first: Option<&'a [u8]>,
    path: &'a [u8],
    position: usize,
}

impl<'a> Segments<'a> {
    /// What holds of every value of the type: the place in the path lies within it, and
    /// the token is a segment.
    #[verifier::type_invariant]
    pub closed spec fn wf(self) -> bool {
        &&& self.position <= self.path@.len()
        &&& self.path@.len() <= usize::MAX
        &&& self.first is Some ==> is_segment(self.first->0@)
    }

    /// What is handed out are segments, and no more of them than can be counted.
    pub proof fn lemma_segments(self)
        requires
            self.wf(),
        ensures
            all_segments(self@),
            self@.len() < usize::MAX,
    {
        lemma_split_segments(self.path@.skip(self.position as int), Seq::empty());
    }

    /// The part of the path that no segment was taken from yet.
    pub closed spec fn remainder(self) -> Seq<u8> {
        self.path@.skip(self.position as int)
    }

    /// The token that is handed out before the segments of the path, while it is
    /// still to come.
    pub closed spec fn token(self) -> Option<Seq<u8>> {
        match self.first {
            Some(token) => Some(token@),
            None => None,
        }
    }

    /// The segments of the given path.
    pub fn new(path: &'a [u8]) -> (segments: Self)
        ensures
            segments@ == segments_of(path@),
            segments.remainder() == path@,
            segments.token() is None,
    {
        let length = path.len();
        proof {
            assert(path@.skip(0) =~= path@);
        }
        Segments { first: None, path, position: 0 }
    }

    /// The given token, which is to be a segment, and behind it the segments of the
    /// given path.
    pub fn with_token(token: &'a [u8], path: &'a [u8]) -> (segments: Self)
        requires
            is_segment(token@),
        ensures
            segments@ == seq![token@] + segments_of(path@),
            segments.remainder() == path@,
            segments.token() == Some(token@),
    {
        let length = path.len();
        proof {
            assert(path@.skip(0) =~= path@);
        }
        Segments { first: Some(token), path, position: 0 }
    }

    /// Hands out the next segment, if there is one left.
    pub fn next(&mut self) -> (segment: Option<&'a [u8]>)
        ensures
            old(self)@.len() == 0 ==> segment is None && final(self)@ == old(self)@,
            old(self)@.len() > 0 ==> (segment matches Some(bytes) && bytes@ == old(self)@[0]
                && final(self)@ == old(self)@.skip(1)),
            segment is Some ==> is_segment(segment->0@),
            final(self).token() is None,
            match old(self).token() {
                Some(_) => final(self).remainder() == old(self).remainder(),
                None => final(self).remainder() == past_segment(old(self).remainder(), false),
            },
    {
        proof {
            use_type_invariant(&*self);
        }
        if let Some(token) = self.first {
            self.first = None;
            proof {
                let rest = segments_of(self.remainder());
                assert((seq![token@] + rest).skip(1) =~= rest);
            }
            return Some(token);
        }
        let path = self.path;
        let end = path.len();
        let mut position = self.position;
        let ghost begin = self.remainder();
        while position < end && path[position] == SEPARATOR
            invariant
                position <= end,
                end == path@.len(),
                segments_of(path@.skip(position as int)) == segments_of(begin),
                past_segment(path@.skip(position as int), false) == past_segment(begin, false),
            decreases end - position,
        {
            proof {
                assert(path@.skip(position as int).skip(1) =~= path@.skip(position + 1));
            }
            position += 1;
        }
        if position == end {
            self.position = position;
            proof {
                assert(path@.skip(position as int) =~= Seq::<u8>::empty());
            }
            return None;
        }
        let start = position;
        proof {
            assert(path@.subrange(start as int, start as int) =~= Seq::<u8>::empty());
        }
        while position < end && path[position] != SEPARATOR
            invariant
                start <= position <= end,
                start < end,
                end == path@.len(),
                path@[start as int] != SEPARATOR,
                forall|i: int| start <= i < position ==> path@[i] != SEPARATOR,
                split(path@.skip(position as int), path@.subrange(start as int, position as int))
                    == segments_of(begin),
                position > start ==> past_segment(path@.skip(position as int), true)
                    == past_segment(begin, false),
                position == start ==> past_segment(path@.skip(position as int), false)
                    == past_segment(begin, false),
            decreases end - position,
        {
            proof {
                assert(path@.skip(position as int).skip(1) =~= path@.skip(position + 1));
                assert(path@.subrange(start as int, position as int).push(path@[position as int])
                    =~= path@.subrange(start as int, position + 1));
            }
            position += 1;
        }
        self.position = position;
        let segment = &path[start..position];
        proof {
            let tail = path@.skip(position as int);
            let rest = segments_of(tail);
            if position < end {
                assert(tail.skip(1) =~= path@.skip(position + 1));
            }
            assert(rest == split(tail, Seq::empty()));
            assert(segments_of(begin) =~= seq![segment@] + rest);
            assert((seq![segment@] + rest).skip(1) =~= rest);
        }
        Some(segment)
    }

    /// The end of the path, from where the last segment handed out ended.
    pub fn rest(&self) -> (rest: &'a [u8])
        ensures
            rest@ == self.remainder(),
    {
        proof {
            use_type_invariant(self);
        }
        let path = self.path;
        let rest = &path[self.position..path.len()];
        proof {
            assert(rest@ =~= self.remainder());
        }
        rest
    }
}

impl<'a> View for Segments<'a> {
    type V = Seq<Seq<u8>>;

    /// The segments that are still to be handed out.
    closed spec fn view(&self) -> Seq<Seq<u8>> {
        match self.first {
            Some(token) => seq![token@] + segments_of(self.path@.skip(self.position as int)),
            None => segments_of(self.path@.skip(self.position as int)),
        }
    }
}

/// Makes up the label of a path: its segments with single separators between them.
pub fn normalize(path: &[u8]) -> (label: Vec<u8>)
    ensures
        label@ == label_of(segments_of(path@)),
        is_normalized(label@),
{
    let mut label: Vec<u8> = Vec::new();
    let mut cursor = Segments::new(path);
    let ghost all = segments_of(path@);
    let ghost mut taken: Seq<Seq<u8>> = Seq::empty();
    proof {
        use_type_invariant(&cursor);
        cursor.lemma_segments();
        assert(taken + cursor@ =~= all);
    }
    loop
        invariant
            all_segments(all),
            all == taken + cursor@,
            label@ == label_of(taken),
            taken.len() > 0 ==> label@.len() > 0,
        ensures
            taken == all,
        decreases cursor@.len(),
    {
        let ghost before = cursor@;
        match cursor.next() {
            Some(segment) => {
                if label.len() > 0 {
                    label.push(SEPARATOR);
                }
                label.extend_from_slice(segment);
                proof {
                    let grown = taken.push(segment@);
                    assert(grown.drop_last() =~= taken);
                    assert(grown.last() == segment@);
                    assert(label@ =~= join(label_of(taken), segment@));
                    assert(grown + cursor@ =~= taken + before);
                    taken = grown;
                }
            },
            None => {
                proof {
                    assert(taken + before =~= taken);
                }
                break ;
            },
        }
    }
    proof {
        lemma_label_of_normalized(all);
    }
    label
}

} // verus!
