//! The model of the trie: what a set of stored keys calls for at each
//! level, and the facts about it that the operations rest on.
use crate::prefix::{
    lemma_prefix_between, lemma_prefix_full, lemma_prefix_monotone, lemma_prefix_nonneg,
    lemma_prefix_parent, prefix,
};
use crate::trie::TrieNode;
use vstd::prelude::*;

verus! {

/// `r` is the least element of `a` that is at least `lo`, or `None` when there is none.
pub open spec fn least_from(a: Set<usize>, lo: int, r: Option<usize>) -> bool {
    match r {
        Some(j) => a.contains(j) && lo <= j && forall|i: usize| #[trigger]
            a.contains(i) && lo <= i ==> j <= i,
        None => forall|i: usize| #[trigger] a.contains(i) ==> i < lo,
    }
}

/// `r` is the greatest element of `a` that is at most `hi`, or `None` when there is none.
pub open spec fn greatest_upto(a: Set<usize>, hi: int, r: Option<usize>) -> bool {
    match r {
        Some(j) => a.contains(j) && j <= hi && forall|i: usize| #[trigger]
            a.contains(i) && i <= hi ==> i <= j,
        None => forall|i: usize| #[trigger] a.contains(i) ==> hi < i,
    }
}

/// The keys of `s` below the node with prefix `p` at level `l`.
pub open spec fn below(s: Set<usize>, w: nat, l: nat, p: int) -> Set<usize> {
    s.filter(|k: usize| prefix(k as int, w, l) == p)
}

/// Some key of `s` has the prefix `p` at level `l`.
pub open spec fn present(s: Set<usize>, w: nat, l: nat, p: int) -> bool {
    exists|k: usize| #[trigger] s.contains(k) && prefix(k as int, w, l) == p
}

/// The level index at level `l` holds the prefix `p`: the root always, any
/// other node exactly when a stored key runs through it.
pub open spec fn level_has(s: Set<usize>, w: nat, l: nat, p: int) -> bool {
    if l == 0 {
        p == 0
    } else {
        present(s, w, l, p)
    }
}

pub open spec fn key_of<T>(r: Option<&TrieNode<T>>) -> Option<usize> {
    match r {
        Some(n) => Some(n.key),
        None => None,
    }
}

/// The node indexed under `p` at level `l` is the one that the stored keys `s` call for.
#[verifier::opaque]
pub open spec fn node_ok<T>(s: Set<usize>, w: nat, l: nat, p: usize, n: TrieNode<T>) -> bool {
    &&& n.level == l
    &&& if l == w {
        &&& n.key == p
        &&& n.value is Some
        &&& n.is_desc_left
        &&& n.is_desc_right
        &&& greatest_upto(s, p - 1, n.left)
        &&& least_from(s, p + 1, n.right)
    } else {
        &&& n.key == 0
        &&& n.value is None
        &&& if present(s, w, l + 1, 2 * p) {
            n.left == Some((2 * p) as usize) && !n.is_desc_left
        } else {
            n.is_desc_left && least_from(below(s, w, l, p as int), 0, n.left)
        }
        &&& if present(s, w, l + 1, 2 * p + 1) {
            n.right == Some((2 * p + 1) as usize) && !n.is_desc_right
        } else {
            n.is_desc_right && greatest_upto(below(s, w, l, p as int), usize::MAX as int, n.right)
        }
    }
}

/// The level index `m` at level `l` is exactly the one that the stored keys `s` call for.
#[verifier::opaque]
pub open spec fn level_ok<T>(s: Set<usize>, w: nat, l: nat, m: Map<usize, TrieNode<T>>) -> bool {
    &&& forall|p: usize| #[trigger] m.contains_key(p) <==> level_has(s, w, l, p as int)
    &&& forall|p: usize| #[trigger] m.contains_key(p) ==> node_ok(s, w, l, p, m[p])
}

/// Where `key` would continue to the right of the node on its path at level
/// `l` but no stored key does, the greatest key below that node is the
/// stored key nearest under `key`.
pub(crate) proof fn lemma_right_shortcut(s: Set<usize>, w: nat, l: nat, key: usize, r: Option<usize>)
    requires
        l < w,
        prefix(key as int, w, l + 1) % 2 == 1,
        !present(s, w, l + 1, prefix(key as int, w, l + 1)),
        greatest_upto(below(s, w, l, prefix(key as int, w, l)), usize::MAX as int, r),
    ensures
        match r {
            None => forall|i: usize| !#[trigger] below(s, w, l, prefix(key as int, w, l)).contains(i),
            Some(c) => s.contains(c) && c < key && forall|i: usize| #[trigger]
                s.contains(i) ==> !(c < i < key),
        },
{
    let p = prefix(key as int, w, l);
    lemma_prefix_parent(key as int, w, l);
    match r {
        None => {},
        Some(c) => {
            lemma_prefix_parent(c as int, w, l);
            if c >= key {
                lemma_prefix_monotone(key as int, c as int, w, l + 1);
                assert(present(s, w, l + 1, prefix(c as int, w, l + 1)));
            }
            assert forall|i: usize| #[trigger] s.contains(i) implies !(c < i < key) by {
                if c < i < key {
                    lemma_prefix_between(c as int, i as int, key as int, w, l);
                    assert(below(s, w, l, p).contains(i));
                }
            }
        },
    }
}

/// Where `key` would continue to the left of the node on its path at level
/// `l` but no stored key does, the least key below that node is the stored
/// key nearest over `key`.
pub(crate) proof fn lemma_left_shortcut(s: Set<usize>, w: nat, l: nat, key: usize, r: Option<usize>)
    requires
        l < w,
        prefix(key as int, w, l + 1) % 2 == 0,
        !present(s, w, l + 1, prefix(key as int, w, l + 1)),
        least_from(below(s, w, l, prefix(key as int, w, l)), 0, r),
    ensures
        match r {
            None => forall|i: usize| !#[trigger] below(s, w, l, prefix(key as int, w, l)).contains(i),
            Some(c) => s.contains(c) && key < c && forall|i: usize| #[trigger]
                s.contains(i) ==> !(key < i < c),
        },
{
    let p = prefix(key as int, w, l);
    lemma_prefix_parent(key as int, w, l);
    match r {
        None => {},
        Some(c) => {
            lemma_prefix_parent(c as int, w, l);
            if c <= key {
                lemma_prefix_monotone(c as int, key as int, w, l + 1);
                assert(present(s, w, l + 1, prefix(c as int, w, l + 1)));
            }
            assert forall|i: usize| #[trigger] s.contains(i) implies !(key < i < c) by {
                if key < i < c {
                    lemma_prefix_between(key as int, i as int, c as int, w, l);
                    assert(below(s, w, l, p).contains(i));
                }
            }
        },
    }
}

proof fn lemma_present_other(s: Set<usize>, w: nat, j: nat, x: int, key: usize)
    requires
        prefix(key as int, w, j) != x,
    ensures
        present(s.insert(key), w, j, x) == present(s, w, j, x),
        present(s.remove(key), w, j, x) == present(s, w, j, x),
        below(s.insert(key), w, j, x) == below(s, w, j, x),
        below(s.remove(key), w, j, x) == below(s, w, j, x),
{
    if present(s.insert(key), w, j, x) {
        let k = choose|k: usize| #[trigger] s.insert(key).contains(k) && prefix(k as int, w, j) == x;
        assert(s.contains(k));
    }
    if present(s, w, j, x) {
        let k = choose|k: usize| #[trigger] s.contains(k) && prefix(k as int, w, j) == x;
        assert(s.remove(key).contains(k));
        assert(s.insert(key).contains(k));
    }
    assert(below(s.insert(key), w, j, x) =~= below(s, w, j, x));
    assert(below(s.remove(key), w, j, x) =~= below(s, w, j, x));
}

/// A node whose children and subtree are the same under two key sets is
/// correct under both.
proof fn lemma_node_frame<T>(s: Set<usize>, s2: Set<usize>, w: nat, l: nat, q: usize, n: TrieNode<T>)
    requires
        l < w,
        node_ok(s, w, l, q, n),
        present(s, w, l + 1, 2 * q) == present(s2, w, l + 1, 2 * q),
        present(s, w, l + 1, 2 * q + 1) == present(s2, w, l + 1, 2 * q + 1),
        below(s, w, l, q as int) == below(s2, w, l, q as int),
    ensures
        node_ok(s2, w, l, q, n),
{
    reveal(node_ok);
}

/// The least of an optional key and `key`.
pub open spec fn lower(o: Option<usize>, key: usize) -> usize {
    match o {
        Some(m) => if m < key {
            m
        } else {
            key
        },
        None => key,
    }
}

/// The greatest of an optional key and `key`.
pub open spec fn higher(o: Option<usize>, key: usize) -> usize {
    match o {
        Some(m) => if m > key {
            m
        } else {
            key
        },
        None => key,
    }
}

/// An internal node with no children.
pub open spec fn fresh_internal<T>(l: nat) -> TrieNode<T> {
    TrieNode {
        key: 0,
        value: None,
        level: l as usize,
        right: None,
        left: None,
        is_desc_left: true,
        is_desc_right: true,
    }
}

/// The node `n` on the path of a newly stored `key`, whose path continues
/// to `child`: it gains the real child `child`, and a shortcut on the other
/// side takes in `key`.
pub open spec fn grown<T>(n: TrieNode<T>, key: usize, child: usize) -> TrieNode<T> {
    if child % 2 == 1 {
        TrieNode {
            right: Some(child),
            is_desc_right: false,
            left: if n.is_desc_left {
                Some(lower(n.left, key))
            } else {
                n.left
            },
            ..n
        }
    } else {
        TrieNode {
            left: Some(child),
            is_desc_left: false,
            right: if n.is_desc_right {
                Some(higher(n.right, key))
            } else {
                n.right
            },
            ..n
        }
    }
}

/// Storing a new `key` changes one index entry at an internal level: the
/// node on the path of `key`, created if missing, grows toward `key`.
pub(crate) proof fn lemma_insert_level<T>(s: Set<usize>, w: nat, l: nat, key: usize, m: Map<usize, TrieNode<T>>)
    requires
        l < w <= 64,
        level_ok(s, w, l, m),
        !s.contains(key),
        prefix(key as int, w, 0) == 0,
    ensures
        ({
            let pl = prefix(key as int, w, l) as usize;
            let base = if m.contains_key(pl) {
                m[pl]
            } else {
                fresh_internal(l)
            };
            level_ok(
                s.insert(key),
                w,
                l,
                m.insert(pl, grown(base, key, prefix(key as int, w, l + 1) as usize)),
            )
        }),
{
    reveal(level_ok);
    let s2 = s.insert(key);
    let p = prefix(key as int, w, l);
    let pl = p as usize;
    let c = prefix(key as int, w, l + 1);
    lemma_prefix_nonneg(key as int, w, l);
    lemma_prefix_nonneg(key as int, w, l + 1);
    lemma_prefix_parent(key as int, w, l);
    let base = if m.contains_key(pl) {
        m[pl]
    } else {
        fresh_internal(l)
    };
    let g = grown(base, key, c as usize);
    let m2 = m.insert(pl, g);
    assert(s2.contains(key));
    assert(present(s2, w, l, p));
    assert(present(s2, w, l + 1, c));
    assert forall|q: usize| #[trigger] m2.contains_key(q) <==> level_has(s2, w, l, q as int) by {
        if q != pl {
            lemma_present_other(s, w, l, q as int, key);
        }
    }
    assert forall|q: usize| #[trigger] m2.contains_key(q) implies node_ok(s2, w, l, q, m2[q]) by {
        if q != pl {
            lemma_present_other(s, w, l, q as int, key);
            lemma_present_other(s, w, l + 1, 2 * q, key);
            lemma_present_other(s, w, l + 1, 2 * q + 1, key);
            lemma_node_frame(s, s2, w, l, q, m[q]);
        } else {
            lemma_grown(s, w, l, key, m);
        }
    }
}

proof fn lemma_least_insert(a: Set<usize>, o: Option<usize>, key: usize)
    requires
        least_from(a, 0, o),
    ensures
        least_from(a.insert(key), 0, Some(lower(o, key))),
{
}

proof fn lemma_greatest_insert(a: Set<usize>, o: Option<usize>, key: usize)
    requires
        greatest_upto(a, usize::MAX as int, o),
    ensures
        greatest_upto(a.insert(key), usize::MAX as int, Some(higher(o, key))),
{
}

proof fn lemma_grown<T>(s: Set<usize>, w: nat, l: nat, key: usize, m: Map<usize, TrieNode<T>>)
    requires
        l < w <= 64,
        level_ok(s, w, l, m),
        !s.contains(key),
        prefix(key as int, w, 0) == 0,
    ensures
        ({
            let pl = prefix(key as int, w, l) as usize;
            let base = if m.contains_key(pl) {
                m[pl]
            } else {
                fresh_internal(l)
            };
            node_ok(s.insert(key), w, l, pl, grown(base, key, prefix(key as int, w, l + 1) as usize))
        }),
{
    reveal(level_ok);
    reveal(node_ok);
    let s2 = s.insert(key);
    let p = prefix(key as int, w, l);
    let pl = p as usize;
    let c = prefix(key as int, w, l + 1);
    lemma_prefix_nonneg(key as int, w, l);
    lemma_prefix_nonneg(key as int, w, l + 1);
    lemma_prefix_parent(key as int, w, l);
    assert(s2.contains(key));
    assert(present(s2, w, l + 1, c));
    let other = if c % 2 == 1 { 2 * p } else { 2 * p + 1 };
    lemma_present_other(s, w, l + 1, other, key);
    assert(below(s2, w, l, p) =~= below(s, w, l, p).insert(key));
    if !m.contains_key(pl) {
        // a new node: nothing was stored below it
        assert(l > 0);
        assert(!present(s, w, l, p));
        assert(below(s, w, l, p) =~= Set::<usize>::empty());
        if present(s, w, l + 1, other) {
            let k = choose|k: usize| #[trigger] s.contains(k) && prefix(k as int, w, l + 1) == other;
            lemma_prefix_parent(k as int, w, l);
            assert(present(s, w, l, p));
        }
    } else {
        assert(node_ok(s, w, l, pl, m[pl]));
    }
    let base = if m.contains_key(pl) {
        m[pl]
    } else {
        fresh_internal(l)
    };
    assert(least_from(below(s, w, l, p), 0, base.left) || !base.is_desc_left);
    assert(greatest_upto(below(s, w, l, p), usize::MAX as int, base.right) || !base.is_desc_right);
    if base.is_desc_left {
        lemma_least_insert(below(s, w, l, p), base.left, key);
    }
    if base.is_desc_right {
        lemma_greatest_insert(below(s, w, l, p), base.right, key);
    }
    let g = grown(base, key, c as usize);
    assert(g.level == l);
    if c % 2 == 1 {
        assert(c == 2 * p + 1);
        assert(present(s2, w, l + 1, 2 * pl + 1));
        assert(g.right == Some((2 * pl + 1) as usize));
        if present(s2, w, l + 1, 2 * pl) {
            assert(g.left == Some((2 * pl) as usize) && !g.is_desc_left);
        } else {
            assert(g.is_desc_left && least_from(below(s2, w, l, pl as int), 0, g.left));
        }
    } else {
        assert(c == 2 * p);
        assert(present(s2, w, l + 1, 2 * pl));
        if present(s2, w, l + 1, 2 * pl + 1) {
            assert(g.right == Some((2 * pl + 1) as usize) && !g.is_desc_right);
        } else {
            assert(g.is_desc_right && greatest_upto(below(s2, w, l, pl as int), usize::MAX as int, g.right));
        }
    }
}

/// `n` with its right pointer set to `r`.
pub open spec fn with_right<T>(n: TrieNode<T>, r: Option<usize>) -> TrieNode<T> {
    TrieNode { right: r, ..n }
}

/// `n` with its left pointer set to `r`.
pub open spec fn with_left<T>(n: TrieNode<T>, r: Option<usize>) -> TrieNode<T> {
    TrieNode { left: r, ..n }
}

/// The leaf index `m` with the right pointer of the leaf `at`, if any, set to `r`.
pub open spec fn relink_right<T>(m: Map<usize, TrieNode<T>>, at: Option<usize>, r: Option<usize>) -> Map<usize, TrieNode<T>> {
    match at {
        Some(a) => m.insert(a, with_right(m[a], r)),
        None => m,
    }
}

/// The leaf index `m` with the left pointer of the leaf `at`, if any, set to `r`.
pub open spec fn relink_left<T>(m: Map<usize, TrieNode<T>>, at: Option<usize>, r: Option<usize>) -> Map<usize, TrieNode<T>> {
    match at {
        Some(a) => m.insert(a, with_left(m[a], r)),
        None => m,
    }
}

/// A leaf whose neighbours did not change stays correct when a key is
/// added that is not between it and either neighbour.
proof fn lemma_leaf_frame(s: Set<usize>, q: usize, key: usize, left: Option<usize>, right: Option<usize>, pred: Option<usize>, succ: Option<usize>)
    requires
        s.contains(q),
        !s.contains(key),
        greatest_upto(s, q - 1, left),
        least_from(s, q + 1, right),
        greatest_upto(s, key as int, pred),
        least_from(s, key as int, succ),
        pred != Some(q),
        succ != Some(q),
    ensures
        greatest_upto(s.insert(key), q - 1, left),
        least_from(s.insert(key), q + 1, right),
{
    let s2 = s.insert(key);
    if key < q {
        assert(succ is Some);
        let sk = succ->0;
        assert(sk <= q);
        assert(sk < q);
        assert(sk <= q - 1);
    }
    if key > q {
        assert(pred is Some);
        let pk = pred->0;
        assert(pk >= q);
        assert(pk > q);
    }
}

/// Storing a new `key` at the leaf level: the new leaf sits between its
/// neighbours `pred` and `succ`, which now point to it.
pub(crate) proof fn lemma_insert_leaves<T>(s: Set<usize>, w: nat, key: usize, m: Map<usize, TrieNode<T>>, pred: Option<usize>, succ: Option<usize>, leaf: TrieNode<T>)
    requires
        w >= 1,
        level_ok(s, w, w, m),
        !s.contains(key),
        greatest_upto(s, key as int, pred),
        least_from(s, key as int, succ),
        leaf.level == w,
        leaf.key == key,
        leaf.value is Some,
        leaf.is_desc_left,
        leaf.is_desc_right,
        leaf.left == pred,
        leaf.right == succ,
    ensures
        level_ok(s.insert(key), w, w, relink_left(relink_right(m, pred, Some(key)), succ, Some(key)).insert(key, leaf)),
{
    reveal(level_ok);
    reveal(node_ok);
    let s2 = s.insert(key);
    let m2 = relink_left(relink_right(m, pred, Some(key)), succ, Some(key)).insert(key, leaf);
    assert forall|k: usize| #[trigger] s2.contains(k) implies prefix(k as int, w, w) == k by {
        lemma_prefix_full(k as int, w);
    }
    assert forall|q: usize| #[trigger] m.contains_key(q) <==> s.contains(q) by {
        lemma_prefix_full(q as int, w);
        if m.contains_key(q) {
            let k = choose|k: usize| #[trigger] s.contains(k) && prefix(k as int, w, w) == q;
            lemma_prefix_full(k as int, w);
        }
        if s.contains(q) {
            assert(present(s, w, w, q as int));
        }
    }
    assert forall|q: usize| #[trigger] m2.contains_key(q) <==> level_has(s2, w, w, q as int) by {
        lemma_prefix_full(q as int, w);
        if s2.contains(q) {
            assert(present(s2, w, w, q as int));
        }
        if w > 0 && present(s2, w, w, q as int) {
            let k = choose|k: usize| #[trigger] s2.contains(k) && prefix(k as int, w, w) == q;
            lemma_prefix_full(k as int, w);
            if k != key {
                assert(present(s, w, w, q as int));
            }
        }
    }
    assert forall|q: usize| #[trigger] m2.contains_key(q) implies node_ok(s2, w, w, q, m2[q]) by {
        if q != key {
            lemma_prefix_full(q as int, w);
            assert(m.contains_key(q));
            assert(s.contains(q));
            let n = m[q];
            assert(node_ok(s, w, w, q, n));
            if pred == Some(q) {
                assert(least_from(s2, q + 1, Some(key)));
                if succ == Some(q) {
                    assert(false);
                }
            } else if succ == Some(q) {
                assert(greatest_upto(s2, q - 1, Some(key)));
            } else {
                lemma_leaf_frame(s, q, key, n.left, n.right, pred, succ);
            }
        }
    }
}

/// A new value for a stored key changes no pointer.
pub(crate) proof fn lemma_replace_value<T>(s: Set<usize>, w: nat, m: Map<usize, TrieNode<T>>, key: usize, value: T)
    requires
        level_ok(s, w, w, m),
        m.contains_key(key),
    ensures
        level_ok(s, w, w, m.insert(key, TrieNode { value: Some(value), ..m[key] })),
{
    reveal(level_ok);
    reveal(node_ok);
    let m2 = m.insert(key, TrieNode { value: Some(value), ..m[key] });
    assert forall|q: usize| #[trigger] m2.contains_key(q) implies node_ok(s, w, w, q, m2[q]) by {
        assert(node_ok(s, w, w, q, m[q]));
    }
}

/// `o`, where it is a key with the prefix `p` at level `l`; else `None`.
pub open spec fn within(o: Option<usize>, w: nat, l: nat, p: int) -> Option<usize> {
    match o {
        Some(a) => if prefix(a as int, w, l) == p {
            Some(a)
        } else {
            None
        },
        None => None,
    }
}

/// A key remains below the node with prefix `p` at level `l` once `key`
/// is gone, told by the two list neighbours `pred` and `succ` of `key`.
pub open spec fn keeps(pred: Option<usize>, succ: Option<usize>, w: nat, l: nat, p: int) -> bool {
    within(pred, w, l, p) is Some || within(succ, w, l, p) is Some
}

/// The node `n` on the path of a removed `key`, whose path continued to
/// `child`: where nothing stays below `child`, that side becomes a shortcut
/// to the neighbour of `key` below `n`; a shortcut to `key` itself on the
/// other side moves to the neighbour on that side.
pub open spec fn shrunk<T>(n: TrieNode<T>, key: usize, child: usize, keep_child: bool, pb: Option<usize>, sb: Option<usize>) -> TrieNode<T> {
    if child % 2 == 1 {
        TrieNode {
            right: if keep_child {
                n.right
            } else {
                pb
            },
            is_desc_right: if keep_child {
                n.is_desc_right
            } else {
                true
            },
            left: if n.is_desc_left && n.left == Some(key) {
                sb
            } else {
                n.left
            },
            ..n
        }
    } else {
        TrieNode {
            left: if keep_child {
                n.left
            } else {
                sb
            },
            is_desc_left: if keep_child {
                n.is_desc_left
            } else {
                true
            },
            right: if n.is_desc_right && n.right == Some(key) {
                pb
            } else {
                n.right
            },
            ..n
        }
    }
}

/// The keys that share a prefix with a removed key form a run around it: a
/// stored key stays below the node on its path exactly when one of its two
/// list neighbours does.
proof fn lemma_keeps(s: Set<usize>, w: nat, j: nat, key: usize, pred: Option<usize>, succ: Option<usize>)
    requires
        s.contains(key),
        greatest_upto(s, key - 1, pred),
        least_from(s, key + 1, succ),
    ensures
        present(s.remove(key), w, j, prefix(key as int, w, j)) == keeps(pred, succ, w, j, prefix(key as int, w, j)),
{
    let s2 = s.remove(key);
    let x = prefix(key as int, w, j);
    if present(s2, w, j, x) {
        let k = choose|k: usize| #[trigger] s2.contains(k) && prefix(k as int, w, j) == x;
        assert(s.contains(k));
        if k < key {
            let a = pred->0;
            lemma_prefix_between(k as int, a as int, key as int, w, j);
        } else {
            let b = succ->0;
            lemma_prefix_between(key as int, b as int, k as int, w, j);
        }
    }
    if let Some(a) = within(pred, w, j, x) {
        assert(s2.contains(a));
    } else if let Some(b) = within(succ, w, j, x) {
        assert(s2.contains(b));
    }
}

/// Below the node with the prefix `p` of `key`, once `key` is gone, where all
/// that remains is under `key`, the greatest is `pred` if it is there.
proof fn lemma_greatest_after_remove(s: Set<usize>, w: nat, l: nat, key: usize, pred: Option<usize>)
    requires
        greatest_upto(s, key - 1, pred),
        forall|k: usize| #[trigger] below(s.remove(key), w, l, prefix(key as int, w, l)).contains(k) ==> k < key,
    ensures
        greatest_upto(below(s.remove(key), w, l, prefix(key as int, w, l)), usize::MAX as int, within(pred, w, l, prefix(key as int, w, l))),
{
    let p = prefix(key as int, w, l);
    let b2 = below(s.remove(key), w, l, p);
    assert forall|k: usize| #[trigger] b2.contains(k) implies within(pred, w, l, p) is Some && k <= pred->0 by {
        assert(k < key);
        let a = pred->0;
        lemma_prefix_between(k as int, a as int, key as int, w, l);
    }
    if let Some(a) = within(pred, w, l, p) {
        assert(b2.contains(a));
    }
}

/// Below the node with the prefix `p` of `key`, once `key` is gone, where all
/// that remains is over `key`, the least is `succ` if it is there.
proof fn lemma_least_after_remove(s: Set<usize>, w: nat, l: nat, key: usize, succ: Option<usize>)
    requires
        least_from(s, key + 1, succ),
        forall|k: usize| #[trigger] below(s.remove(key), w, l, prefix(key as int, w, l)).contains(k) ==> k > key,
    ensures
        least_from(below(s.remove(key), w, l, prefix(key as int, w, l)), 0, within(succ, w, l, prefix(key as int, w, l))),
{
    let p = prefix(key as int, w, l);
    let b2 = below(s.remove(key), w, l, p);
    assert forall|k: usize| #[trigger] b2.contains(k) implies within(succ, w, l, p) is Some && succ->0 <= k by {
        assert(k > key);
        let b = succ->0;
        lemma_prefix_between(key as int, b as int, k as int, w, l);
    }
    if let Some(b) = within(succ, w, l, p) {
        assert(b2.contains(b));
    }
}

/// The node on the path of a removed `key` that still has keys below it is
/// correct once shrunk.
proof fn lemma_shrunk<T>(s: Set<usize>, w: nat, l: nat, key: usize, n: TrieNode<T>, pred: Option<usize>, succ: Option<usize>)
    requires
        l < w,
        s.contains(key),
        greatest_upto(s, key - 1, pred),
        least_from(s, key + 1, succ),
        node_ok(s, w, l, prefix(key as int, w, l) as usize, n),
    ensures
        ({
            let p = prefix(key as int, w, l);
            let c = prefix(key as int, w, l + 1);
            node_ok(
                s.remove(key),
                w,
                l,
                p as usize,
                shrunk(n, key, c as usize, keeps(pred, succ, w, l + 1, c), within(pred, w, l, p), within(succ, w, l, p)),
            )
        }),
{
    reveal(node_ok);
    let s2 = s.remove(key);
    let p = prefix(key as int, w, l);
    let pl = p as usize;
    let c = prefix(key as int, w, l + 1);
    lemma_prefix_nonneg(key as int, w, l);
    lemma_prefix_nonneg(key as int, w, l + 1);
    lemma_prefix_parent(key as int, w, l);
    lemma_keeps(s, w, l + 1, key, pred, succ);
    assert(s.contains(key) && prefix(key as int, w, l + 1) == c);
    assert(present(s, w, l + 1, c));
    assert(below(s, w, l, p).contains(key));
    let keep_child = keeps(pred, succ, w, l + 1, c);
    let g = shrunk(n, key, c as usize, keep_child, within(pred, w, l, p), within(succ, w, l, p));
    if c % 2 == 1 {
        assert(c == 2 * p + 1);
        lemma_present_other(s, w, l + 1, 2 * p, key);
        if !keep_child {
            // nothing remains on the right: all that remains lies under `key`
            assert forall|k: usize| #[trigger] below(s2, w, l, p).contains(k) implies k < key by {
                lemma_prefix_parent(k as int, w, l);
                if k >= key {
                    lemma_prefix_monotone(key as int, k as int, w, l + 1);
                    assert(present(s2, w, l + 1, c));
                }
            }
            lemma_greatest_after_remove(s, w, l, key, pred);
        }
        if n.is_desc_left && n.left == Some(key) {
            // `key` was the least below: all that remains lies over it
            assert forall|k: usize| #[trigger] below(s2, w, l, p).contains(k) implies k > key by {
                assert(below(s, w, l, p).contains(k));
            }
            lemma_least_after_remove(s, w, l, key, succ);
        } else if n.is_desc_left {
            assert(below(s2, w, l, p) =~= below(s, w, l, p).remove(key));
        }
        assert(g.level == l);
    } else {
        assert(c == 2 * p);
        lemma_present_other(s, w, l + 1, 2 * p + 1, key);
        if !keep_child {
            assert forall|k: usize| #[trigger] below(s2, w, l, p).contains(k) implies k > key by {
                lemma_prefix_parent(k as int, w, l);
                if k <= key {
                    lemma_prefix_monotone(k as int, key as int, w, l + 1);
                    assert(present(s2, w, l + 1, c));
                }
            }
            lemma_least_after_remove(s, w, l, key, succ);
        }
        if n.is_desc_right && n.right == Some(key) {
            assert forall|k: usize| #[trigger] below(s2, w, l, p).contains(k) implies k < key by {
                assert(below(s, w, l, p).contains(k));
            }
            lemma_greatest_after_remove(s, w, l, key, pred);
        } else if n.is_desc_right {
            assert(below(s2, w, l, p) =~= below(s, w, l, p).remove(key));
        }
        assert(g.level == l);
    }
}

/// Removing `key` changes one index entry at an internal level: the node on
/// its path goes where nothing remains below it, and is shrunk otherwise.
pub(crate) proof fn lemma_delete_level<T>(s: Set<usize>, w: nat, l: nat, key: usize, m: Map<usize, TrieNode<T>>, pred: Option<usize>, succ: Option<usize>)
    requires
        l < w,
        level_ok(s, w, l, m),
        s.contains(key),
        greatest_upto(s, key - 1, pred),
        least_from(s, key + 1, succ),
        prefix(key as int, w, 0) == 0,
    ensures
        ({
            let p = prefix(key as int, w, l);
            let c = prefix(key as int, w, l + 1);
            let m2 = if l > 0 && !keeps(pred, succ, w, l, p) {
                m.remove(p as usize)
            } else {
                m.insert(
                    p as usize,
                    shrunk(m[p as usize], key, c as usize, keeps(pred, succ, w, l + 1, c), within(pred, w, l, p), within(succ, w, l, p)),
                )
            };
            &&& m.contains_key(p as usize)
            &&& level_ok(s.remove(key), w, l, m2)
        }),
{
    reveal(level_ok);
    let s2 = s.remove(key);
    let p = prefix(key as int, w, l);
    let pl = p as usize;
    let c = prefix(key as int, w, l + 1);
    lemma_prefix_nonneg(key as int, w, l);
    lemma_prefix_parent(key as int, w, l);
    assert(present(s, w, l, p));
    assert(m.contains_key(pl));
    lemma_keeps(s, w, l, key, pred, succ);
    let m2 = if l > 0 && !keeps(pred, succ, w, l, p) {
        m.remove(pl)
    } else {
        m.insert(
            pl,
            shrunk(m[pl], key, c as usize, keeps(pred, succ, w, l + 1, c), within(pred, w, l, p), within(succ, w, l, p)),
        )
    };
    assert forall|q: usize| #[trigger] m2.contains_key(q) <==> level_has(s2, w, l, q as int) by {
        if q != pl {
            lemma_present_other(s, w, l, q as int, key);
        }
    }
    assert forall|q: usize| #[trigger] m2.contains_key(q) implies node_ok(s2, w, l, q, m2[q]) by {
        if q != pl {
            lemma_present_other(s, w, l, q as int, key);
            lemma_present_other(s, w, l + 1, 2 * q, key);
            lemma_present_other(s, w, l + 1, 2 * q + 1, key);
            lemma_node_frame(s, s2, w, l, q, m[q]);
        } else {
            lemma_shrunk(s, w, l, key, m[pl], pred, succ);
        }
    }
}

/// A leaf whose neighbours are not `key` stays correct once `key` is gone.
proof fn lemma_leaf_frame_remove(s: Set<usize>, q: usize, key: usize, left: Option<usize>, right: Option<usize>)
    requires
        s.contains(q),
        q != key,
        greatest_upto(s, q - 1, left),
        least_from(s, q + 1, right),
        left != Some(key),
        right != Some(key),
    ensures
        greatest_upto(s.remove(key), q - 1, left),
        least_from(s.remove(key), q + 1, right),
{
}

/// Removing `key` at the leaf level: its neighbours `pred` and `succ` now
/// point to each other.
pub(crate) proof fn lemma_delete_leaves<T>(s: Set<usize>, w: nat, key: usize, m: Map<usize, TrieNode<T>>)
    requires
        w >= 1,
        level_ok(s, w, w, m),
        s.contains(key),
    ensures
        m.contains_key(key),
        m[key].value is Some,
        greatest_upto(s, key - 1, m[key].left),
        least_from(s, key + 1, m[key].right),
        level_ok(
            s.remove(key),
            w,
            w,
            relink_left(relink_right(m.remove(key), m[key].left, m[key].right), m[key].right, m[key].left),
        ),
{
    reveal(level_ok);
    reveal(node_ok);
    let s2 = s.remove(key);
    let pred = m[key].left;
    let succ = m[key].right;
    assert forall|q: usize| #[trigger] m.contains_key(q) <==> s.contains(q) by {
        lemma_prefix_full(q as int, w);
        if m.contains_key(q) {
            let k = choose|k: usize| #[trigger] s.contains(k) && prefix(k as int, w, w) == q;
            lemma_prefix_full(k as int, w);
        }
        if s.contains(q) {
            assert(present(s, w, w, q as int));
        }
    }
    assert(m.contains_key(key));
    assert(node_ok(s, w, w, key, m[key]));
    let m2 = relink_left(relink_right(m.remove(key), pred, succ), succ, pred);
    assert forall|q: usize| #[trigger] m2.contains_key(q) <==> level_has(s2, w, w, q as int) by {
        lemma_prefix_full(q as int, w);
        if s2.contains(q) {
            assert(present(s2, w, w, q as int));
        }
        if present(s2, w, w, q as int) {
            let k = choose|k: usize| #[trigger] s2.contains(k) && prefix(k as int, w, w) == q;
            lemma_prefix_full(k as int, w);
        }
    }
    assert forall|q: usize| #[trigger] m2.contains_key(q) implies node_ok(s2, w, w, q, m2[q]) by {
        assert(m.contains_key(q));
        let n = m[q];
        assert(node_ok(s, w, w, q, n));
        if pred == Some(q) {
            assert(n.right == Some(key));
            if succ == Some(q) {
                assert(false);
            }
            assert(n.left != Some(key));
        } else if succ == Some(q) {
            assert(n.left == Some(key));
            assert(n.right != Some(key));
        } else {
            if n.left == Some(key) {
                assert(succ == Some(q));
            }
            if n.right == Some(key) {
                assert(pred == Some(q));
            }
            lemma_leaf_frame_remove(s, q, key, n.left, n.right);
        }
    }
}

/// A successor or a predecessor query has one answer at most.
pub proof fn lemma_answers_unique(a: Set<usize>, q: int, r1: Option<usize>, r2: Option<usize>)
    ensures
        least_from(a, q, r1) && least_from(a, q, r2) ==> r1 == r2,
        greatest_upto(a, q, r1) && greatest_upto(a, q, r2) ==> r1 == r2,
{
}

/// Storing a key that was absent and removing it again hands back the value
/// and restores the contents, so every successor and predecessor query
/// answers as before.
pub proof fn lemma_insert_delete_inverse<T>(before: Map<usize, T>, key: usize, value: T)
    requires
        !before.contains_key(key),
    ensures
        before.insert(key, value).contains_key(key),
        before.insert(key, value)[key] == value,
        before.insert(key, value).remove(key) == before,
        forall|q: int, r: Option<usize>|
            least_from(before.insert(key, value).remove(key).dom(), q, r) == least_from(before.dom(), q, r),
        forall|q: int, r: Option<usize>|
            greatest_upto(before.insert(key, value).remove(key).dom(), q, r) == greatest_upto(before.dom(), q, r),
{
    assert(before.insert(key, value).remove(key) =~= before);
}

} // verus!
