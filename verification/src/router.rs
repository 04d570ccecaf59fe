//! A router of hosts and paths: a trie in which the host is the first segment of each
//! label and the segments of the path follow it.

use crate::label::{is_normalized, is_segment, is_token, join, SEPARATOR};
use crate::segments::{
    all_segments, label_of, lemma_label_of_concat, lemma_label_of_length,
    lemma_label_of_normalized, lemma_tail_step, segments_of, tail_after, Segments,
};
use crate::trie::lookup::best_count;
use crate::trie::{Tally, Trie, TrieBuilder};
use vstd::prelude::*;

verus! {

/// The segments that a host and a path are looked up by: the host, then the segments of
/// the path.
pub open spec fn route_segments(host: Seq<u8>, path: Seq<u8>) -> Seq<Seq<u8>> {
    seq![host] + segments_of(path)
}

/// The label that a value for a host and a path is kept under: the host and the segments
/// of the path, with separators between them.
pub open spec fn route_label(host: Seq<u8>, path: Seq<u8>) -> Seq<u8> {
    label_of(route_segments(host, path))
}

/// A builder used to set up a router.
pub struct RouterBuilder<Value> {
    trie: TrieBuilder<Value>,
}

/// A router that holds values for hosts and paths, and looks up the value for the
/// longest path of whole segments that a given path of a given host begins with.
pub struct Router<Value> {
    trie: Trie<Value>,
}

impl<Value> View for RouterBuilder<Value> {
    type V = Map<Seq<u8>, Value>;

    /// The labels of the hosts and paths pushed so far, each with the value last pushed.
    closed spec fn view(&self) -> Map<Seq<u8>, Value> {
        self.trie@
    }
}

impl<Value> View for Router<Value> {
    type V = Map<Seq<u8>, Value>;

    /// The labels of the hosts and paths that the router holds a value for, each with
    /// its value.
    closed spec fn view(&self) -> Map<Seq<u8>, Value> {
        self.trie@
    }
}

impl<Value> RouterBuilder<Value> {
    /// Whether the builder is well-formed: its trie builder is, and it holds no value for
    /// the empty label, which stands for no host.
    pub closed spec fn wf(self) -> bool {
        self.trie.wf() && !self.trie@.contains_key(Seq::empty())
    }

    /// A counter of the builder.
    pub closed spec fn tally(self, what: Tally) -> nat {
        self.trie.tally(what)
    }

    /// Whether the counters of the builder have room for one more label of the given
    /// length.
    pub open spec fn has_room(self, length: nat) -> bool {
        &&& self.tally(Tally::Nodes) + 2 <= usize::MAX
        &&& self.tally(Tally::LabelBytes) + length <= usize::MAX
        &&& self.tally(Tally::Values) + 1 <= usize::MAX
    }

    /// A label is no longer than the host and the path, and a separator between them.
    pub proof fn lemma_label_length(host: Seq<u8>, path: Seq<u8>)
        ensures
            route_label(host, path).len() <= host.len() + path.len() + 1,
    {
        let head = seq![host];
        lemma_label_of_length(path, Seq::empty());
        lemma_label_of_concat(head, segments_of(path));
        assert(head.drop_last() =~= Seq::<Seq<u8>>::empty());
        assert(label_of(head.drop_last()).len() == 0);
        assert(head.last() == host);
    }

    /// Makes up the label that a value for the given host and path is kept under.
    fn label_for(host: &[u8], path: &[u8]) -> (label: Vec<u8>)
        requires
            is_segment(host@),
        ensures
            label@ == route_label(host@, path@),
            is_normalized(label@),
            label@.len() > 0,
    {
        let mut label: Vec<u8> = Vec::new();
        label.extend_from_slice(host);
        let mut cursor = Segments::new(path);
        let ghost all = segments_of(path@);
        let ghost mut taken: Seq<Seq<u8>> = Seq::empty();
        proof {
            use_type_invariant(&cursor);
            cursor.lemma_segments();
            assert(seq![host@].drop_last() =~= Seq::<Seq<u8>>::empty());
            assert(label_of(seq![host@].drop_last()).len() == 0);
            assert(seq![host@] + taken =~= seq![host@]);
            assert(label@ =~= host@);
        }
        loop
            invariant
                is_segment(host@),
                all_segments(all),
                all == taken + cursor@,
                label@ == label_of(seq![host@] + taken),
                label@.len() > 0,
            ensures
                taken == all,
            decreases cursor@.len(),
        {
            let ghost before = cursor@;
            match cursor.next() {
                Some(segment) => {
                    label.push(SEPARATOR);
                    label.extend_from_slice(segment);
                    proof {
                        let front = seq![host@] + taken;
                        let grown = seq![host@] + taken.push(segment@);
                        assert(grown.drop_last() =~= front);
                        assert(grown.last() == segment@);
                        assert(label@ =~= join(label_of(front), segment@));
                        assert(taken.push(segment@) + cursor@ =~= taken + before);
                        taken = taken.push(segment@);
                    }
                },
                None => {
                    proof {
                        assert(taken + before =~= taken);
                    }
                    break ;
                },
            }
        }
        proof {
            let segments = route_segments(host@, path@);
            assert forall|i: int| 0 <= i < segments.len() implies is_segment(
                #[trigger] segments[i],
            ) by {
                if i > 0 {
                    assert(segments[i] == all[i - 1]);
                }
            }
            lemma_label_of_normalized(segments);
        }
        label
    }

    /// Adds a value for the given host and path. Will return `true` if an existing value
    /// was overwritten.
    ///
    /// The host is one segment. The path is taken by its segments: where separators
    /// stand, and how many, makes no difference.
    pub fn push(&mut self, host: &[u8], path: &[u8], value: Value) -> (overwritten: bool)
        requires
            old(self).wf(),
            is_segment(host@),
            old(self).has_room(route_label(host@, path@).len()),
        ensures
            final(self).wf(),
            final(self)@ == old(self)@.insert(route_label(host@, path@), value),
            overwritten == old(self)@.contains_key(route_label(host@, path@)),
            final(self).tally(Tally::Nodes) <= old(self).tally(Tally::Nodes) + 2,
            final(self).tally(Tally::LabelBytes) <= old(self).tally(Tally::LabelBytes)
                + route_label(host@, path@).len(),
            final(self).tally(Tally::Values) <= old(self).tally(Tally::Values) + 1,
    {
        let label = Self::label_for(host, path);
        self.trie.push(label, value)
    }

    /// Adds a value for the given host and path where the counters of the builder have
    /// room for the label, and tells whether an existing value was overwritten. Where they
    /// have no room the builder stays as it is and nothing is returned.
    pub fn try_push(&mut self, host: &[u8], path: &[u8], value: Value) -> (overwritten: Option<
        bool,
    >)
        requires
            old(self).wf(),
            is_segment(host@),
        ensures
            final(self).wf(),
            old(self).has_room(route_label(host@, path@).len()) ==> final(self)@
                == old(self)@.insert(route_label(host@, path@), value) && overwritten == Some(
                old(self)@.contains_key(route_label(host@, path@)),
            ),
            !old(self).has_room(route_label(host@, path@).len()) ==> final(self)@ == old(self)@
                && overwritten is None,
            final(self).tally(Tally::Nodes) <= old(self).tally(Tally::Nodes) + 2,
            final(self).tally(Tally::LabelBytes) <= old(self).tally(Tally::LabelBytes)
                + route_label(host@, path@).len(),
            final(self).tally(Tally::Values) <= old(self).tally(Tally::Values) + 1,
    {
        let label = Self::label_for(host, path);
        self.trie.try_push(label, value)
    }

    /// Compacts the builder data into a router.
    pub fn build(self) -> (router: Router<Value>)
        requires
            self.wf(),
        ensures
            router@ == self@,
    {
        Router { trie: self.trie.build() }
    }
}

/// What a router that holds `map` finds for a host and a path: the value for the host and
/// the most segments that the path begins with, and the end of the path behind the last
/// of these segments. It finds nothing for a host that is no segment.
pub open spec fn route<Value>(map: Map<Seq<u8>, Value>, host: Seq<u8>, path: Seq<u8>) -> Option<
    (Value, Seq<u8>),
> {
    if !is_segment(host) {
        None
    } else {
        match best_count(map, route_segments(host, path)) {
            Some(count) => Some(
                (
                    map[label_of(route_segments(host, path).take(count))],
                    tail_after(path, (count - 1) as nat),
                ),
            ),
            None => None,
        }
    }
}

/// The bytes of a tail, which are none where there is no tail.
pub open spec fn tail_bytes(tail: Option<&[u8]>) -> Seq<u8> {
    match tail {
        Some(bytes) => bytes@,
        None => Seq::empty(),
    }
}

impl<Value> Router<Value> {
    #[verifier::type_invariant]
    closed spec fn wf(self) -> bool {
        !self.trie@.contains_key(Seq::empty())
    }

    /// Returns a builder instance that can be used to set up the router.
    pub fn builder() -> (builder: RouterBuilder<Value>)
        ensures
            builder.wf(),
            builder@ == Map::<Seq<u8>, Value>::empty(),
            builder.tally(Tally::Nodes) == 1,
            builder.tally(Tally::LabelBytes) == 0,
            builder.tally(Tally::Values) == 0,
    {
        RouterBuilder { trie: Trie::builder() }
    }

    /// Looks up the value for a host and a path: the one kept for this host and the most
    /// segments that the path begins with.
    ///
    /// With the value comes the tail: the end of the path behind the last segment that
    /// was matched, byte for byte, or nothing where the path ends there. There is no
    /// value for a host that is no segment.
    pub fn lookup<'a, 'b>(&'a self, host: &[u8], path: &'b [u8]) -> (result: Option<
        (&'a Value, Option<&'b [u8]>),
    >)
        ensures
            match result {
                Some((value, tail)) => route(self@, host@, path@) == Some(
                    (*value, tail_bytes(tail)),
                ) && (tail is Some ==> tail_bytes(tail).len() > 0),
                None => route(self@, host@, path@) is None,
            },
    {
        proof {
            use_type_invariant(self);
        }
        if !is_token(host) {
            return None;
        }
        let ghost segments = route_segments(host@, path@);
        let (value, count) = match self.trie.lookup(Segments::with_token(host, path)) {
            Some(found) => found,
            None => {
                return None;
            },
        };
        proof {
            assert(segments.take(0) =~= Seq::<Seq<u8>>::empty());
            assert(count >= 1);
        }
        let mut cursor = Segments::new(path);
        let mut passed: usize = 1;
        while passed < count
            invariant
                1 <= passed <= count,
                cursor.token() is None,
                cursor.remainder() == tail_after(path@, (passed - 1) as nat),
            decreases count - passed,
        {
            proof {
                lemma_tail_step(path@, (passed - 1) as nat);
            }
            let _ = cursor.next();
            passed += 1;
        }
        let rest = cursor.rest();
        let tail = if rest.len() == 0 {
            None
        } else {
            Some(rest)
        };
        Some((value, tail))
    }
}

} // verus!
