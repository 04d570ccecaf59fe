use vhost_router::label::{common_prefix_length, precedes};
use vhost_router::segments::Segments;
use vhost_router::trie::Trie;

fn make_key(s: &str) -> Segments<'_> {
    Segments::new(s.as_bytes())
}

#[test]
fn common_prefix() {
    assert_eq!(common_prefix_length(b"", b""), 0);
    assert_eq!(common_prefix_length(b"abc", b""), 0);
    assert_eq!(common_prefix_length(b"", b"abc"), 0);
    assert_eq!(common_prefix_length(b"abc", b"abc"), 3);
    assert_eq!(common_prefix_length(b"a", b"abc"), 0);
    assert_eq!(common_prefix_length(b"abc", b"a"), 0);
    assert_eq!(common_prefix_length(b"a", b"a/bc"), 1);
    assert_eq!(common_prefix_length(b"a/bc", b"a"), 1);
    assert_eq!(common_prefix_length(b"a/b", b"a/bc"), 1);
    assert_eq!(common_prefix_length(b"a/bc", b"a/b"), 1);
    assert_eq!(common_prefix_length(b"a/bc", b"a/bc"), 4);
    assert_eq!(common_prefix_length(b"a/bc", b"a/bc/d"), 4);
    assert_eq!(common_prefix_length(b"a/bc/d", b"a/bc"), 4);
    assert_eq!(common_prefix_length(b"a/bc/d", b"x/bc/d"), 0);
}

#[test]
fn lookup_with_root_value() {
    let mut builder = Trie::builder();
    for (label, value) in [
        ("", 1),
        ("a", 2),
        ("bc", 7),
        ("a/bc/de/f", 3),
        ("a/bc", 4),
        ("a/bc/de/g", 5),
    ] {
        assert!(!builder.push(label.as_bytes().to_vec(), value));
    }
    assert!(builder.push("a/bc".as_bytes().to_vec(), 6));
    let trie = builder.build();

    assert_eq!(trie.lookup(make_key("")), Some((&1, 0)));
    assert_eq!(trie.lookup(make_key("a")), Some((&2, 1)));
    assert_eq!(trie.lookup(make_key("x")), Some((&1, 0)));
    assert_eq!(trie.lookup(make_key("bc")), Some((&7, 1)));
    assert_eq!(trie.lookup(make_key("x/y")), Some((&1, 0)));
    assert_eq!(trie.lookup(make_key("a/bc")), Some((&6, 2)));
    assert_eq!(trie.lookup(make_key("a/b")), Some((&2, 1)));
    assert_eq!(trie.lookup(make_key("a/bcde")), Some((&2, 1)));
    assert_eq!(trie.lookup(make_key("a/bc/de")), Some((&6, 2)));
    assert_eq!(trie.lookup(make_key("a/bc/de/f")), Some((&3, 4)));
    assert_eq!(trie.lookup(make_key("a/bc/de/fh")), Some((&6, 2)));
    assert_eq!(trie.lookup(make_key("a/bc/de/g")), Some((&5, 4)));
    assert_eq!(trie.lookup(make_key("a/bc/de/h")), Some((&6, 2)));
}

#[test]
fn lookup_without_root_value() {
    let mut builder = Trie::builder();
    for (label, value) in [
        ("a", 2),
        ("bc", 7),
        ("a/bc/de/f", 3),
        ("a/bc", 4),
        ("a/bc/de/g", 5),
    ] {
        assert!(!builder.push(label.as_bytes().to_vec(), value));
    }
    assert!(builder.push("a/bc".as_bytes().to_vec(), 6));
    let trie = builder.build();

    assert_eq!(trie.lookup(make_key("")), None);
    assert_eq!(trie.lookup(make_key("a")), Some((&2, 1)));
    assert_eq!(trie.lookup(make_key("x")), None);
    assert_eq!(trie.lookup(make_key("b")), None);
    assert_eq!(trie.lookup(make_key("bc")), Some((&7, 1)));
    assert_eq!(trie.lookup(make_key("bcd")), None);
    assert_eq!(trie.lookup(make_key("x/y")), None);
    assert_eq!(trie.lookup(make_key("a/bc")), Some((&6, 2)));
    assert_eq!(trie.lookup(make_key("a/b")), Some((&2, 1)));
    assert_eq!(trie.lookup(make_key("a/bcde")), Some((&2, 1)));
    assert_eq!(trie.lookup(make_key("a/bc/de")), Some((&6, 2)));
    assert_eq!(trie.lookup(make_key("a/bc/de/f")), Some((&3, 4)));
    assert_eq!(trie.lookup(make_key("a/bc/de/fh")), Some((&6, 2)));
    assert_eq!(trie.lookup(make_key("a/bc/de/g")), Some((&5, 4)));
    assert_eq!(trie.lookup(make_key("a/bc/de/h")), Some((&6, 2)));
}

#[test]
fn labels_are_ordered_by_their_bytes() {
    assert!(precedes(b"a", b"b"));
    assert!(precedes(b"a", b"a/b"));
    assert!(precedes(b"a-b", b"a/x"));
    assert!(!precedes(b"a/x", b"a-b"));
    assert!(!precedes(b"abc", b"abc"));
    assert!(!precedes(b"b", b"a"));
    assert!(precedes(b"", b"a"));
    assert!(!precedes(b"", b""));
}

#[test]
fn overwriting_replaces_the_value() {
    let mut builder = Trie::builder();
    assert!(!builder.push(b"a/bc".to_vec(), 1));
    assert!(builder.push(b"a/bc".to_vec(), 2));
    let trie = builder.build();
    assert_eq!(trie.lookup(make_key("a/bc")), Some((&2, 2)));
    assert_eq!(trie.lookup(make_key("a")), None);
}

#[test]
fn counters_match_the_vectors_of_the_trie() {
    let mut builder = Trie::builder();
    assert_eq!(builder.counters(), (1, 0, 0));
    builder.push(b"a/bc/de/f".to_vec(), 1);
    // one leaf with the whole label
    assert_eq!(builder.counters(), (2, 9, 1));
    builder.push(b"a/bc".to_vec(), 2);
    // the leaf is split: one node more, one separator less
    assert_eq!(builder.counters(), (3, 8, 2));
    builder.push(b"a/bc/de/g".to_vec(), 3);
    // split at "de", and a new leaf "g"
    assert_eq!(builder.counters(), (5, 8, 3));
    builder.push(b"".to_vec(), 4);
    assert_eq!(builder.counters(), (5, 8, 4));
    builder.push(b"a/bc".to_vec(), 5);
    assert_eq!(builder.counters(), (5, 8, 4));
    let counters = builder.counters();
    let trie = builder.build();
    assert_eq!(trie.sizes(), counters);
}

#[test]
fn try_push_adds_where_there_is_room() {
    let mut builder = Trie::builder();
    assert_eq!(builder.try_push(b"x/y".to_vec(), 7), Some(false));
    assert_eq!(builder.try_push(b"x/y".to_vec(), 8), Some(true));
    let trie = builder.build();
    assert_eq!(trie.lookup(make_key("x/y/z")), Some((&8, 2)));
}

#[test]
fn children_are_found_whatever_the_order_of_pushes() {
    let labels = ["m", "a/x", "a-b", "z", "a", "b/c/d", "b/c", "0"];
    let mut builder = Trie::builder();
    for (value, label) in labels.iter().enumerate() {
        assert!(!builder.push(label.as_bytes().to_vec(), value));
    }
    let trie = builder.build();
    for (value, label) in labels.iter().enumerate() {
        let segments = label.split('/').count();
        assert_eq!(trie.lookup(make_key(label)), Some((&value, segments)));
    }
    assert_eq!(trie.lookup(make_key("a-b/q")), Some((&2, 1)));
    assert_eq!(trie.lookup(make_key("b")), None);
    assert_eq!(trie.lookup(make_key("b/c/e")), Some((&6, 2)));
}

#[test]
fn segments_skip_separators() {
    let mut segments = Segments::new(b"//a///bc/");
    assert_eq!(segments.next(), Some(&b"a"[..]));
    assert_eq!(segments.rest(), b"///bc/");
    assert_eq!(segments.next(), Some(&b"bc"[..]));
    assert_eq!(segments.rest(), b"/");
    assert_eq!(segments.next(), None);
    assert_eq!(segments.rest(), b"");
    assert_eq!(segments.next(), None);

    let mut segments = Segments::with_token(b"host", b"/x");
    assert_eq!(segments.next(), Some(&b"host"[..]));
    assert_eq!(segments.rest(), b"/x");
    assert_eq!(segments.next(), Some(&b"x"[..]));
    assert_eq!(segments.next(), None);
}

#[test]
fn seven_pushes_make_seven_nodes() {
    let mut builder = Trie::builder();
    for (label, value) in [
        ("", 1),
        ("a", 2),
        ("bc", 7),
        ("a/bc/de/f", 3),
        ("a/bc", 4),
        ("a/bc/de/g", 5),
    ] {
        assert!(!builder.push(label.as_bytes().to_vec(), value));
    }
    // root, a, bc, a/bc, a/bc/de, a/bc/de/f, a/bc/de/g; a + bc + bc + de + f + g; one
    // value for each label
    assert_eq!(builder.counters(), (7, 9, 6));
    assert!(builder.push("a/bc".as_bytes().to_vec(), 6));
    // a label that is pushed again changes no counter
    assert_eq!(builder.counters(), (7, 9, 6));
    let trie = builder.build();
    assert_eq!(trie.sizes(), (7, 9, 6));
}

#[test]
fn split_takes_the_separator_from_the_labels() {
    let mut builder = Trie::builder();
    assert!(!builder.push(b"bc/de/f".to_vec(), 3));
    assert_eq!(builder.counters(), (2, 7, 1));
    // the label ends where the child is split: one node more, one byte less, no leaf
    assert!(!builder.push(b"bc".to_vec(), 4));
    assert_eq!(builder.counters(), (3, 6, 2));
    // a split and a leaf
    assert!(!builder.push(b"bc/de/g".to_vec(), 5));
    assert_eq!(builder.counters(), (5, 6, 3));
    // neither
    assert!(builder.push(b"bc/de/f".to_vec(), 6));
    assert_eq!(builder.counters(), (5, 6, 3));
    let (nodes, _, values) = builder.counters();
    assert!(nodes <= 2 * values + 1);
}
