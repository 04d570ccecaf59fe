//! Labels: byte strings made of segments that a separator character joins.

use vstd::prelude::*;

verus! {

/// Character to separate the segments of a label: the forward slash.
pub const SEPARATOR: u8 = 47u8;

/// Whether position `n` of `s` is a segment boundary: the end of `s` or a separator.
pub open spec fn is_boundary(s: Seq<u8>, n: int) -> bool {
    0 <= n <= s.len() && (n == s.len() || s[n] == SEPARATOR)
}

/// Whether the first `n` bytes of `a` and `b` are the same and end at a segment
/// boundary in both.
pub open spec fn is_common_prefix(a: Seq<u8>, b: Seq<u8>, n: int) -> bool {
    &&& is_boundary(a, n)
    &&& is_boundary(b, n)
    &&& a.subrange(0, n) == b.subrange(0, n)
}

/// Whether `s` is a single segment: not empty, and free of separators.
pub open spec fn is_segment(s: Seq<u8>) -> bool {
    s.len() > 0 && forall|i: int| 0 <= i < s.len() ==> s[i] != SEPARATOR
}

/// Whether `s` is a normalized label: no separator at either end and no two
/// separators in a row, so that every segment is non-empty. The empty label is normalized.
pub open spec fn is_normalized(s: Seq<u8>) -> bool {
    forall|i: int|
        0 <= i < s.len() && #[trigger] s[i] == SEPARATOR ==> 0 < i && i + 1 < s.len() && s[i + 1]
            != SEPARATOR
}

/// Whether two labels begin with the same segments: they share a common prefix that is
/// not empty.
pub open spec fn overlap(a: Seq<u8>, b: Seq<u8>) -> bool {
    exists|n: int| n > 0 && is_common_prefix(a, b, n)
}

/// The label `a` continued by the label `b`: a separator stands between them unless
/// one of them is empty.
pub open spec fn join(a: Seq<u8>, b: Seq<u8>) -> Seq<u8> {
    if a.len() == 0 {
        b
    } else if b.len() == 0 {
        a
    } else {
        a.push(SEPARATOR) + b
    }
}

/// Whether `key` is `p` continued by some label, that is `join(p, k)` for some `k`.
pub open spec fn is_path_prefix(p: Seq<u8>, key: Seq<u8>) -> bool {
    ||| p.len() == 0
    ||| key == p
    ||| (p.len() + 1 < key.len() && key.subrange(0, p.len() as int) == p && key[p.len() as int]
        == SEPARATOR)
}

/// What continues `p` in `key`: the `k` with `key == join(p, k)`, where `p` is a path
/// prefix of `key`.
pub open spec fn path_suffix(key: Seq<u8>, p: Seq<u8>) -> Seq<u8> {
    if p.len() == 0 {
        key
    } else if key.len() <= p.len() {
        Seq::empty()
    } else {
        key.subrange(p.len() as int + 1, key.len() as int)
    }
}

/// What a descent has consumed of `full` when `rest` is left of it: the `p` with
/// `full == join(p, rest)`.
pub open spec fn consumed(full: Seq<u8>, rest: Seq<u8>) -> Seq<u8> {
    if rest.len() == 0 {
        full
    } else if rest.len() >= full.len() {
        Seq::empty()
    } else {
        full.subrange(0, full.len() - rest.len() - 1)
    }
}

/// A path prefix and the suffix that goes with it make up the key again.
pub proof fn lemma_join_suffix(p: Seq<u8>, key: Seq<u8>)
    requires
        is_path_prefix(p, key),
    ensures
        join(p, path_suffix(key, p)) == key,
{
    if p.len() != 0 && key != p {
        assert(join(p, path_suffix(key, p)) =~= key) by {
            assert(key.subrange(0, p.len() as int) == p);
        }
    } else {
        assert(join(p, path_suffix(key, p)) =~= key);
    }
}

/// A label is a path prefix of every label it is joined into, and the suffix is
/// what was joined onto it.
pub proof fn lemma_suffix_join(p: Seq<u8>, k: Seq<u8>)
    ensures
        is_path_prefix(p, join(p, k)),
        path_suffix(join(p, k), p) == k,
{
    if p.len() != 0 && k.len() != 0 {
        let key = join(p, k);
        assert(key.subrange(0, p.len() as int) =~= p);
        assert(key.subrange(p.len() as int + 1, key.len() as int) =~= k);
    } else {
        assert(path_suffix(join(p, k), p) =~= k);
    }
}

/// Joining is associative.
pub proof fn lemma_join_assoc(a: Seq<u8>, b: Seq<u8>, c: Seq<u8>)
    ensures
        join(join(a, b), c) == join(a, join(b, c)),
{
    assert(join(join(a, b), c) =~= join(a, join(b, c)));
}

/// A path prefix made of two parts: the key continues the first part, and what
/// follows it continues the second.
pub proof fn lemma_path_prefix_join(a: Seq<u8>, b: Seq<u8>, key: Seq<u8>)
    requires
        a.len() > 0,
    ensures
        is_path_prefix(join(a, b), key) <==> is_path_prefix(a, key) && is_path_prefix(
            b,
            path_suffix(key, a),
        ),
        is_path_prefix(join(a, b), key) ==> path_suffix(key, join(a, b)) == path_suffix(
            path_suffix(key, a),
            b,
        ),
{
    let ab = join(a, b);
    let rest = path_suffix(key, a);
    if b.len() == 0 {
    } else {
        if is_path_prefix(ab, key) {
            assert(key.subrange(0, ab.len() as int) == ab);
            assert(key.subrange(0, a.len() as int) =~= a) by {
                assert(forall|i: int| 0 <= i < a.len() ==> key[i] == ab[i]);
            }
            assert(key[a.len() as int] == ab[a.len() as int]);
            assert(rest.subrange(0, b.len() as int) =~= b) by {
                assert(forall|i: int|
                    0 <= i < b.len() ==> rest[i] == key[a.len() + 1 + i] && key[a.len() + 1 + i]
                        == ab[a.len() + 1 + i]);
            }
            if key != ab {
                assert(rest[b.len() as int] == key[ab.len() as int]);
            } else {
                assert(rest =~= b);
            }
            assert(path_suffix(key, ab) =~= path_suffix(rest, b));
        }
        if is_path_prefix(a, key) && is_path_prefix(b, rest) {
            lemma_join_suffix(a, key);
            lemma_join_suffix(b, rest);
            lemma_join_assoc(a, b, path_suffix(rest, b));
            lemma_suffix_join(ab, path_suffix(rest, b));
        }
    }
}

/// What a descent consumes in two steps is the join of what each step consumed.
pub proof fn lemma_consumed_join(full: Seq<u8>, a: Seq<u8>, mid: Seq<u8>, rest: Seq<u8>)
    requires
        a.len() > 0,
        full == join(a, mid),
        mid == join(consumed(mid, rest), rest),
    ensures
        consumed(full, rest) == join(a, consumed(mid, rest)),
        full == join(consumed(full, rest), rest),
{
    let p = consumed(mid, rest);
    lemma_join_assoc(a, p, rest);
    assert(consumed(full, rest) =~= join(a, p));
}

/// Whether `n` is the length of the longest common prefix of `a` and `b`: the greatest
/// length of a common prefix, or zero where they share none.
pub open spec fn is_longest_common(a: Seq<u8>, b: Seq<u8>, n: int) -> bool {
    &&& n == 0 || is_common_prefix(a, b, n)
    &&& n >= 0
    &&& forall|m: int| is_common_prefix(a, b, m) ==> m <= n
}

/// The length of the longest common prefix of `a` and `b`.
pub open spec fn longest_common(a: Seq<u8>, b: Seq<u8>) -> int {
    choose|n: int| is_longest_common(a, b, n)
}

/// There is one length of the longest common prefix only.
pub proof fn lemma_longest_common(a: Seq<u8>, b: Seq<u8>, n: int)
    requires
        is_longest_common(a, b, n),
    ensures
        longest_common(a, b) == n,
{
}

/// What is left of `label` behind its first `n` bytes and the separator that follows
/// them.
pub open spec fn past(label: Seq<u8>, n: int) -> Seq<u8> {
    if n >= label.len() {
        Seq::empty()
    } else {
        label.subrange(n + 1, label.len() as int)
    }
}

/// Two labels that each overlap with a third overlap with each other.
pub proof fn lemma_overlap_common(a: Seq<u8>, b: Seq<u8>, label: Seq<u8>)
    requires
        overlap(a, label),
        overlap(b, label),
    ensures
        overlap(a, b),
{
    let n = choose|n: int| n > 0 && is_common_prefix(a, label, n);
    let m = choose|m: int| m > 0 && is_common_prefix(b, label, m);
    let k = if n <= m {
        n
    } else {
        m
    };
    assert(a.subrange(0, k) =~= b.subrange(0, k)) by {
        assert forall|i: int| 0 <= i < k implies a[i] == b[i] by {
            assert(a.subrange(0, n)[i] == label.subrange(0, n)[i]);
            assert(b.subrange(0, m)[i] == label.subrange(0, m)[i]);
        }
    }
    if m < n {
        assert(a.subrange(0, n)[m] == label.subrange(0, n)[m]);
    }
    if n < m {
        assert(b.subrange(0, m)[n] == label.subrange(0, m)[n]);
    }
    assert(is_common_prefix(a, b, k));
}

/// Calculates the length of the longest common prefix of two labels. A common prefix is
/// identical and ends at a boundary in both labels (either end of the label or a separator
/// character). Where the labels share no such prefix the result is zero.
pub fn common_prefix_length(a: &[u8], b: &[u8]) -> (length: usize)
    ensures
        length == 0 || is_common_prefix(a@, b@, length as int),
        forall|n: int| is_common_prefix(a@, b@, n) ==> n <= length,
        length == longest_common(a@, b@),
{
    let mut length: usize = 0;
    let limit: usize = if a.len() < b.len() { a.len() } else { b.len() };
    let mut i: usize = 0;
    while i < limit
        invariant
            limit <= a@.len(),
            limit <= b@.len(),
            i <= limit,
            length <= i,
            a@.subrange(0, i as int) == b@.subrange(0, i as int),
            length == 0 || is_common_prefix(a@, b@, length as int),
            forall|n: int| is_common_prefix(a@, b@, n) && n < i ==> n <= length,
        decreases limit - i,
    {
        if a[i] != b[i] {
            proof {
                assert forall|n: int| is_common_prefix(a@, b@, n) implies n <= length by {
                    if n > i {
                        assert(a@.subrange(0, n)[i as int] == b@.subrange(0, n)[i as int]);
                    }
                }
                lemma_longest_common(a@, b@, length as int);
            }
            return length;
        }
        if a[i] == SEPARATOR {
            length = i;
        }
        proof {
            assert(a@.subrange(0, i + 1) =~= a@.subrange(0, i as int).push(a@[i as int]));
            assert(b@.subrange(0, i + 1) =~= b@.subrange(0, i as int).push(b@[i as int]));
        }
        i += 1;
    }
    if a.len() == b.len() || (a.len() < b.len() && b[a.len()] == SEPARATOR) {
        length = a.len();
    } else if a.len() > b.len() && a[b.len()] == SEPARATOR {
        length = b.len();
    }
    proof {
        lemma_longest_common(a@, b@, length as int);
    }
    length
}

/// Whether `a` comes before `b` in the order of labels, which is that of their bytes:
/// at the first place where they differ `a` has the smaller byte, or `a` ends there.
pub open spec fn sorts_before(a: Seq<u8>, b: Seq<u8>) -> bool {
    exists|k: int|
        0 <= k <= a.len() && k < b.len() && #[trigger] a.subrange(0, k) == b.subrange(0, k) && (k
            == a.len() || a[k] < b[k])
}

/// The order of labels is transitive.
pub proof fn lemma_sorts_before_transitive(a: Seq<u8>, b: Seq<u8>, c: Seq<u8>)
    requires
        sorts_before(a, b),
        sorts_before(b, c),
    ensures
        sorts_before(a, c),
{
    let i = choose|k: int|
        0 <= k <= a.len() && k < b.len() && #[trigger] a.subrange(0, k) == b.subrange(0, k) && (k
            == a.len() || a[k] < b[k]);
    let j = choose|k: int|
        0 <= k <= b.len() && k < c.len() && #[trigger] b.subrange(0, k) == c.subrange(0, k) && (k
            == b.len() || b[k] < c[k]);
    let k = if i <= j {
        i
    } else {
        j
    };
    assert(a.subrange(0, k) =~= c.subrange(0, k)) by {
        assert forall|x: int| 0 <= x < k implies a[x] == c[x] by {
            assert(a.subrange(0, i)[x] == b.subrange(0, i)[x]);
            assert(b.subrange(0, j)[x] == c.subrange(0, j)[x]);
        }
    }
    if i < j {
        assert(b.subrange(0, j)[i] == c.subrange(0, j)[i]);
    }
    if j < i {
        assert(a.subrange(0, i)[j] == b.subrange(0, i)[j]);
    }
}

/// Two labels that agree in their first `k` bytes and are not the same come one before
/// the other.
proof fn lemma_sorts_apart(a: Seq<u8>, b: Seq<u8>, k: int)
    requires
        a != b,
        0 <= k <= a.len(),
        k <= b.len(),
        a.subrange(0, k) == b.subrange(0, k),
    ensures
        sorts_before(a, b) || sorts_before(b, a),
    decreases a.len() - k,
{
    if k == a.len() {
        if k == b.len() {
            assert(a.subrange(0, k) =~= a);
            assert(b.subrange(0, k) =~= b);
        }
    } else if k == b.len() {
        assert(b.subrange(0, k) == a.subrange(0, k));
    } else if a[k] == b[k] {
        assert(a.subrange(0, k + 1) =~= a.subrange(0, k).push(a[k]));
        assert(b.subrange(0, k + 1) =~= b.subrange(0, k).push(b[k]));
        lemma_sorts_apart(a, b, k + 1);
    } else {
        assert(b.subrange(0, k) == a.subrange(0, k));
    }
}

/// Of two labels that are not the same one comes before the other.
pub proof fn lemma_sorts_total(a: Seq<u8>, b: Seq<u8>)
    requires
        a != b,
    ensures
        sorts_before(a, b) || sorts_before(b, a),
{
    assert(a.subrange(0, 0) =~= b.subrange(0, 0));
    lemma_sorts_apart(a, b, 0);
}

/// Tells whether the first label comes before the second in the order of labels.
pub fn precedes(a: &[u8], b: &[u8]) -> (before: bool)
    ensures
        before == sorts_before(a@, b@),
{
    let mut i: usize = 0;
    while i < a.len() && i < b.len()
        invariant
            i <= a@.len(),
            i <= b@.len(),
            a@.subrange(0, i as int) == b@.subrange(0, i as int),
        decreases a@.len() - i,
    {
        if a[i] != b[i] {
            let before = a[i] < b[i];
            proof {
                if !before && sorts_before(a@, b@) {
                    let k = choose|k: int|
                        0 <= k <= a@.len() && k < b@.len() && #[trigger] a@.subrange(0, k)
                            == b@.subrange(0, k) && (k == a@.len() || a@[k] < b@[k]);
                    if k > i {
                        assert(a@.subrange(0, k)[i as int] == b@.subrange(0, k)[i as int]);
                    } else if k < i {
                        assert(a@.subrange(0, i as int)[k] == b@.subrange(0, i as int)[k]);
                    }
                }
            }
            return before;
        }
        proof {
            assert(a@.subrange(0, i + 1) =~= a@.subrange(0, i as int).push(a@[i as int]));
            assert(b@.subrange(0, i + 1) =~= b@.subrange(0, i as int).push(b@[i as int]));
        }
        i += 1;
    }
    let before = i < b.len();
    proof {
        if !before && sorts_before(a@, b@) {
            let k = choose|k: int|
                0 <= k <= a@.len() && k < b@.len() && #[trigger] a@.subrange(0, k) == b@.subrange(
                    0,
                    k,
                ) && (k == a@.len() || a@[k] < b@[k]);
            assert(a@.subrange(0, i as int)[k] == b@.subrange(0, i as int)[k]);
        }
    }
    before
}

/// Tells whether the bytes are a single segment: not empty, and free of separators.
pub fn is_token(bytes: &[u8]) -> (token: bool)
    ensures
        token == is_segment(bytes@),
{
    if bytes.len() == 0 {
        return false;
    }
    let mut i: usize = 0;
    while i < bytes.len()
        invariant
            i <= bytes@.len(),
            forall|k: int| 0 <= k < i ==> bytes@[k] != SEPARATOR,
        decreases bytes@.len() - i,
    {
        if bytes[i] == SEPARATOR {
            return false;
        }
        i += 1;
    }
    true
}

/// Tells whether two byte strings are the same.
pub fn same_bytes(a: &[u8], b: &[u8]) -> (same: bool)
    ensures
        same == (a@ == b@),
{
    if a.len() != b.len() {
        return false;
    }
    let mut i: usize = 0;
    while i < a.len()
        invariant
            a@.len() == b@.len(),
            i <= a@.len(),
            forall|k: int| 0 <= k < i ==> a@[k] == b@[k],
        decreases a@.len() - i,
    {
        if a[i] != b[i] {
            return false;
        }
        i += 1;
    }
    proof {
        assert(a@ =~= b@);
    }
    true
}

} // verus!
