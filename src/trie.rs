//! The X-fast trie.
//!
//! Every node lives in the level index of its level: `level_maps[l]` maps the
//! `l`-bit prefix of a node to the node itself, and the leaves sit at level
//! `nr_levels`, keyed by their full key. A pointer is therefore the prefix
//! of its target: a real child of the node `p` at level `l` is `2p` or
//! `2p + 1` at level `l + 1`, while a shortcut or a leaf-list link is the key
//! of a leaf.
//!
//! The well-formedness predicate pins every node down from the set of stored
//! keys alone: which prefixes are indexed at each level, which children are
//! real, where each shortcut points, and the neighbours of each leaf.
use crate::model::{
    below, greatest_upto, grown, key_of, keeps, lemma_delete_leaves, lemma_delete_level,
    lemma_insert_leaves, lemma_insert_level, lemma_left_shortcut, lemma_replace_value,
    lemma_right_shortcut, least_from, level_has, level_ok, node_ok, present, relink_left,
    relink_right, shrunk, within,
};
use crate::prefix::{
    bit_len, lemma_bit_len_at_most, lemma_bit_len_bound, lemma_prefix_bound, lemma_prefix_coarsen,
    lemma_prefix_full, lemma_prefix_monotone, lemma_prefix_nonneg, lemma_prefix_parent,
    lemma_prefix_root, prefix,
    prefix_of,
};
use std::collections::HashMap;
use vstd::arithmetic::power2::*;
use vstd::prelude::*;

verus! {

broadcast use vstd::std_specs::hash::group_hash_axioms;

/// A node of the trie: a leaf at the last level, an internal node above it.
pub struct TrieNode<T> {
    /// The stored key of a leaf; 0 on an internal node.
    pub key: usize,
    /// The stored value of a leaf; `None` on an internal node.
    pub value: Option<T>,
    /// Depth below the root.
    pub level: usize,
    /// On an internal node, the real child toward bit 1 or a shortcut to the
    /// greatest leaf below; on a leaf, the next greater leaf.
    pub right: Option<usize>,
    /// On an internal node, the real child toward bit 0 or a shortcut to the
    /// least leaf below; on a leaf, the next smaller leaf.
    pub left: Option<usize>,
    /// `left` is a shortcut rather than a real child.
    pub is_desc_left: bool,
    /// `right` is a shortcut rather than a real child.
    pub is_desc_right: bool,
}

impl<T> TrieNode<T> {
    /// A leaf holding `key` and `value`, linked to nothing yet.
    pub fn new(key: usize, value: T, level: usize) -> (r: Self)
        ensures
            r.key == key,
            r.value == Some(value),
            r.level == level,
            r.right is None,
            r.left is None,
            r.is_desc_right,
            r.is_desc_left,
    {
        TrieNode {
            key: key,
            value: Some(value),
            level: level,
            right: None,
            left: None,
            is_desc_right: true,
            is_desc_left: true,
        }
    }

    /// An internal node with no children yet.
    pub fn new_internal(level: usize) -> (r: Self)
        ensures
            r.key == 0,
            r.value is None,
            r.level == level,
            r.right is None,
            r.left is None,
            r.is_desc_right,
            r.is_desc_left,
    {
        TrieNode {
            key: 0,
            value: None,
            level,
            right: None,
            left: None,
            is_desc_left: true,
            is_desc_right: true,
        }
    }
}

/// An X-fast trie over the keys `0 ..= range`.
pub struct Xfast<T> {
    nr_levels: usize,
    range: usize,
    level_maps: Vec<HashMap<usize, TrieNode<T>>>,
}

impl<T> View for Xfast<T> {
    type V = Map<usize, T>;

    /// The stored keys and their values.
    closed spec fn view(&self) -> Map<usize, T> {
        Map::new(
            |k: usize| self.keys().contains(k),
            |k: usize| self.level_maps@[self.nr_levels as int]@[k].value.unwrap(),
        )
    }
}

impl<T> Xfast<T> {
    /// The stored keys.
    spec fn keys(&self) -> Set<usize> {
        self.level_maps@[self.nr_levels as int]@.dom()
    }

    spec fn lm(&self, l: int) -> Map<usize, TrieNode<T>> {
        self.level_maps@[l]@
    }

    /// The width of the keys: the depth of the leaves below the root.
    pub closed spec fn width(&self) -> nat {
        self.nr_levels as nat
    }

    /// The largest key that the trie takes.
    pub closed spec fn spec_range(&self) -> nat {
        self.range as nat
    }

    /// The level index at level `l` holds a node under the prefix `p`.
    pub closed spec fn indexed(&self, l: nat, p: usize) -> bool {
        l <= self.nr_levels && self.lm(l as int).contains_key(p)
    }

    /// The node that the level index at level `l` holds under the prefix `p`.
    pub closed spec fn node(&self, l: nat, p: usize) -> TrieNode<T> {
        self.lm(l as int)[p]
    }

    /// The trie's invariant: its nodes are the ones that its stored keys call for.
    pub closed spec fn wf(&self) -> bool {
        &&& 1 <= self.nr_levels <= 64
        &&& self.level_maps@.len() == self.nr_levels + 1
        &&& (self.range as nat) < pow2(self.nr_levels as nat)
        &&& pow2(self.nr_levels as nat) <= usize::MAX as nat + 1
        &&& forall|k: usize| #[trigger] self.keys().contains(k) ==> k <= self.range
        &&& forall|l: int|
            0 <= l <= self.nr_levels ==> level_ok(
                self.keys(),
                self.nr_levels as nat,
                l as nat,
                #[trigger] self.level_maps@[l]@,
            )
    }

    /// `n` is the leaf of a stored key, linked to the next smaller and the
    /// next greater stored key.
    pub open spec fn is_leaf(&self, n: TrieNode<T>) -> bool {
        &&& self@.contains_key(n.key)
        &&& n.value == Some(self@[n.key])
        &&& n.level == self.width()
        &&& greatest_upto(self@.dom(), n.key - 1, n.left)
        &&& least_from(self@.dom(), n.key + 1, n.right)
    }

    proof fn lemma_view(&self)
        ensures
            self@.dom() == self.keys(),
            forall|k: usize| #[trigger]
                self.keys().contains(k) ==> self@[k] == self.lm(
                    self.nr_levels as int,
                )[k].value.unwrap(),
    {
        assert(self@.dom() =~= self.keys());
    }

    /// The leaf indexed under `k` is a leaf in the sense of `is_leaf`.
    proof fn lemma_leaf(&self, k: usize)
        requires
            self.wf(),
            self.keys().contains(k),
        ensures
            self.is_leaf(self.lm(self.nr_levels as int)[k]),
            self.lm(self.nr_levels as int)[k].key == k,
    {
        reveal(level_ok);
        reveal(node_ok);
        self.lemma_view();
        let w = self.nr_levels as int;
        assert(level_ok(self.keys(), w as nat, w as nat, self.level_maps@[w]@));
        assert(self.lm(w).contains_key(k));
    }

    /// What the level indexes hold, and the level of each node.
    proof fn lemma_node(&self, l: int, p: usize)
        requires
            self.wf(),
            0 <= l <= self.nr_levels,
        ensures
            self.lm(l).contains_key(p) <==> level_has(self.keys(), self.nr_levels as nat, l as nat, p as int),
            self.lm(l).contains_key(p) ==> self.lm(l)[p].level == l,
    {
        reveal(level_ok);
        reveal(node_ok);
        assert(level_ok(self.keys(), self.nr_levels as nat, l as nat, self.level_maps@[l]@));
    }

    proof fn lemma_node_ok(&self, l: int, p: usize)
        requires
            self.wf(),
            0 <= l <= self.nr_levels,
            self.lm(l).contains_key(p),
        ensures
            node_ok(self.keys(), self.nr_levels as nat, l as nat, p, self.lm(l)[p]),
    {
        reveal(level_ok);
        assert(level_ok(self.keys(), self.nr_levels as nat, l as nat, self.level_maps@[l]@));
    }

    /// Below the root lie all stored keys.
    proof fn lemma_root_sub(&self)
        requires
            self.wf(),
        ensures
            below(self.keys(), self.nr_levels as nat, 0, 0) =~= self.keys(),
    {
        assert forall|k: usize| #[trigger] self.keys().contains(k) implies prefix(
            k as int,
            self.nr_levels as nat,
            0,
        ) == 0 by {
            lemma_prefix_root(k as int, self.nr_levels as nat);
        }
    }

    /// The number of bits needed to write `range`.
    fn get_levels_count(range: usize) -> (levels: usize)
        ensures
            levels == bit_len(range as nat),
            levels <= 64,
    {
        proof {
            lemma2_to64_rest();
            lemma_bit_len_at_most(range as nat, 64);
        }
        let ghost n = range as nat;
        let mut rest = range;
        let mut levels: usize = 0;
        while rest > 0
            invariant
                levels + bit_len(rest as nat) == bit_len(n),
                bit_len(n) <= 64,
            decreases rest,
        {
            assert(rest >> 1 == rest / 2) by (bit_vector);
            rest = rest >> 1;
            levels += 1;
        }
        levels
    }

    /// `n` empty level indexes.
    fn create_map_list(n: usize) -> (r: Vec<HashMap<usize, TrieNode<T>>>)
        ensures
            r@.len() == n,
            forall|l: int| 0 <= l < n ==> (#[trigger] r@[l])@ == Map::<usize, TrieNode<T>>::empty(),
    {
        let mut map_list: Vec<HashMap<usize, TrieNode<T>>> = Vec::new();
        for _level in 0..n
            invariant
                map_list@.len() == _level,
                forall|l: int|
                    0 <= l < map_list@.len() ==> (#[trigger] map_list@[l])@ == Map::<
                        usize,
                        TrieNode<T>,
                    >::empty(),
        {
            let level_hash: HashMap<usize, TrieNode<T>> = HashMap::new();
            map_list.push(level_hash);
        }
        map_list
    }

    /// An empty trie over the keys `0 ..= range`. Its width is the number of
    /// bits needed to write `range`, and at least one, so that the root is
    /// never a leaf.
    pub fn new(range: usize) -> (r: Self)
        ensures
            r.wf(),
            r@ == Map::<usize, T>::empty(),
            r.spec_range() == range,
            r.width() == if range == 0 {
                1
            } else {
                bit_len(range as nat)
            },
    {
        let count = Self::get_levels_count(range);
        let nr_levels = if count == 0 {
            1
        } else {
            count
        };
        let mut level_maps = Self::create_map_list(nr_levels + 1);
        let root_node = TrieNode::new_internal(0);
        level_maps[0].insert(0, root_node);
        let r = Xfast { nr_levels, range, level_maps };
        proof {
            lemma_bit_len_bound(range as nat);
            lemma2_to64();
            lemma2_to64_rest();
            let w = nr_levels as nat;
            assert(usize::MAX == 0xffff_ffff || usize::MAX == 0xffff_ffff_ffff_ffff);
            if usize::MAX == 0xffff_ffff {
                lemma_bit_len_at_most(range as nat, 32);
                if w < 32 {
                    lemma_pow2_strictly_increases(w, 32);
                }
            } else {
                lemma_bit_len_at_most(range as nat, 64);
                if w < 64 {
                    lemma_pow2_strictly_increases(w, 64);
                }
            }
            reveal(level_ok);
            reveal(node_ok);
            assert(r.keys() =~= Set::<usize>::empty());
            assert forall|l: int| 0 <= l <= nr_levels implies level_ok(
                r.keys(),
                w,
                l as nat,
                #[trigger] r.level_maps@[l]@,
            ) by {
                if l == 0 {
                    assert forall|p: usize| #[trigger]
                        r.lm(0).contains_key(p) implies node_ok(r.keys(), w, 0, p, r.lm(0)[p]) by {
                        assert(!present(r.keys(), w, 1, 0));
                        assert(!present(r.keys(), w, 1, 1));
                    }
                }
            }
            assert(r@ =~= Map::<usize, T>::empty());
        }
        r
    }

    /// The width of the keys: the depth of the leaves below the root.
    pub fn nr_levels(&self) -> (r: usize)
        ensures
            r == self.width(),
    {
        self.nr_levels
    }

    /// The largest key that the trie takes.
    pub fn range(&self) -> (r: usize)
        ensures
            r == self.spec_range(),
    {
        self.range
    }

    /// The deepest node on the path of `key`: the node whose prefix is the
    /// longest prefix of `key` that some stored key shares, found by a binary
    /// search over the levels.
    fn find_lowest_common_ancestor(&self, key: usize) -> (r: &TrieNode<T>)
        requires
            self.wf(),
            key <= self.range,
        ensures
            r.level <= self.nr_levels,
            self.lm(r.level as int).contains_key(
                prefix(key as int, self.nr_levels as nat, r.level as nat) as usize,
            ),
            *r == self.lm(r.level as int)[prefix(
                key as int,
                self.nr_levels as nat,
                r.level as nat,
            ) as usize],
            forall|l: nat|
                r.level < l <= self.nr_levels ==> !present(
                    self.keys(),
                    self.nr_levels as nat,
                    l,
                    prefix(key as int, self.nr_levels as nat, l),
                ),
    {
        let ghost w = self.nr_levels as nat;
        let ghost s = self.keys();
        proof {
            reveal(level_ok);
            lemma_prefix_root(key as int, w);
            assert(level_ok(s, w, 0, self.level_maps@[0]@));
            self.lemma_node(0, 0);
        }
        let mut ancestor_node = self.level_maps[0].get(&0).unwrap();
        let mut low: usize = 1;
        let mut high: usize = self.nr_levels;
        while low <= high
            invariant
                self.wf(),
                w == self.nr_levels,
                s == self.keys(),
                1 <= low <= high + 1,
                high <= self.nr_levels,
                ancestor_node.level + 1 == low,
                self.lm(ancestor_node.level as int).contains_key(
                    prefix(key as int, w, ancestor_node.level as nat) as usize,
                ),
                *ancestor_node == self.lm(ancestor_node.level as int)[prefix(
                    key as int,
                    w,
                    ancestor_node.level as nat,
                ) as usize],
                forall|l: nat| high < l <= w ==> !present(s, w, l, prefix(key as int, w, l)),
            decreases high + 1 - low,
        {
            let mid = low + (high - low) / 2;
            let pfx = prefix_of(key, self.nr_levels, mid);
            proof {
                reveal(level_ok);
                lemma_prefix_nonneg(key as int, w, mid as nat);
                assert(level_ok(s, w, mid as nat, self.level_maps@[mid as int]@));
            }
            match self.level_maps[mid].get(&pfx) {
                Some(value) => {
                    proof {
                        self.lemma_node(mid as int, pfx);
                    }
                    ancestor_node = value;
                    low = mid + 1;
                },
                None => {
                    proof {
                        assert forall|l: nat| mid <= l <= w implies !present(
                            s,
                            w,
                            l,
                            prefix(key as int, w, l),
                        ) by {
                            if present(s, w, l, prefix(key as int, w, l)) {
                                let k = choose|k: usize|
                                    #[trigger] s.contains(k) && prefix(k as int, w, l) == prefix(
                                        key as int,
                                        w,
                                        l,
                                    );
                                lemma_prefix_coarsen(k as int, key as int, w, mid as nat, l);
                                assert(present(s, w, mid as nat, pfx as int));
                            }
                        }
                    }
                    high = mid - 1;
                },
            }
        }
        ancestor_node
    }

    /// The leaf of `key`, if `key` is stored.
    pub fn find_key(&self, key: usize) -> (r: Option<&TrieNode<T>>)
        requires
            self.wf(),
        ensures
            r is Some <==> self@.contains_key(key),
            r matches Some(n) ==> n.key == key && self.is_leaf(*n),
    {
        proof {
            self.lemma_view();
        }
        let r = self.level_maps[self.nr_levels].get(&key);
        proof {
            if self.keys().contains(key) {
                self.lemma_leaf(key);
            }
        }
        r
    }

    /// At the deepest node on the path of `key`, the pointer on the side
    /// where `key` would continue is a shortcut to the stored key nearest to
    /// `key` on that side: no stored key lies strictly between the two.
    proof fn lemma_shortcut(&self, key: usize, l: nat)
        requires
            self.wf(),
            key <= self.range,
            l < self.nr_levels,
            self.lm(l as int).contains_key(prefix(key as int, self.nr_levels as nat, l) as usize),
            forall|j: nat|
                l < j <= self.nr_levels ==> !present(
                    self.keys(),
                    self.nr_levels as nat,
                    j,
                    prefix(key as int, self.nr_levels as nat, j),
                ),
        ensures
            ({
                let w = self.nr_levels as nat;
                let s = self.keys();
                let node = self.lm(l as int)[prefix(key as int, w, l) as usize];
                let shortcut = if prefix(key as int, w, l + 1) % 2 == 1 {
                    node.right
                } else {
                    node.left
                };
                &&& !s.contains(key)
                &&& match shortcut {
                    None => forall|i: usize| !s.contains(i),
                    Some(c) => {
                        &&& s.contains(c)
                        &&& (prefix(key as int, w, l + 1) % 2 == 1 ==> c < key)
                        &&& (prefix(key as int, w, l + 1) % 2 == 0 ==> key < c)
                        &&& forall|i: usize| #[trigger]
                            s.contains(i) ==> !(c < i < key) && !(key < i < c)
                    },
                }
            }),
    {
        let w = self.nr_levels as nat;
        let s = self.keys();
        let p = prefix(key as int, w, l);
        let child = prefix(key as int, w, l + 1);
        lemma_prefix_nonneg(key as int, w, l);
        lemma_prefix_full(key as int, w);
        lemma_prefix_parent(key as int, w, l);
        self.lemma_node_ok(l as int, p as usize);
        reveal(node_ok);
        assert(!present(s, w, w, key as int));
        if s.contains(key) {
            assert(present(s, w, w, key as int));
        }
        assert(!present(s, w, l + 1, child));
        if l == 0 {
            lemma_prefix_root(key as int, w);
            self.lemma_root_sub();
        } else {
            self.lemma_node(l as int, p as usize);
            let k = choose|k: usize| #[trigger] s.contains(k) && prefix(k as int, w, l) == p;
            assert(below(s, w, l, p).contains(k));
        }
        let node = self.lm(l as int)[p as usize];
        if child % 2 == 1 {
            lemma_right_shortcut(s, w, l, key, node.right);
        } else {
            lemma_left_shortcut(s, w, l, key, node.left);
        }
    }

    /// The leaf of the least stored key that is at least `key`.
    pub fn find_successor(&self, key: usize) -> (r: Option<&TrieNode<T>>)
        requires
            self.wf(),
        ensures
            least_from(self@.dom(), key as int, key_of(r)),
            r matches Some(n) ==> self.is_leaf(*n),
    {
        proof {
            self.lemma_view();
        }
        if key > self.range {
            return None;
        }
        let node = self.find_lowest_common_ancestor(key);
        proof {
            lemma_prefix_full(key as int, self.nr_levels as nat);
        }
        if node.level == self.nr_levels {
            proof {
                self.lemma_leaf(key);
            }
            return Some(node);
        }
        let child = prefix_of(key, self.nr_levels, node.level + 1);
        let shortcut = if child % 2 == 1 {
            node.right
        } else {
            node.left
        };
        proof {
            self.lemma_shortcut(key, node.level as nat);
        }
        match shortcut {
            None => None,
            Some(c) => {
                proof {
                    self.lemma_leaf(c);
                }
                let leaf = self.level_maps[self.nr_levels].get(&c).unwrap();
                if leaf.key < key {
                    // the shortcut reached the last key before `key`: step once to the right
                    match leaf.right {
                        None => None,
                        Some(next) => {
                            proof {
                                self.lemma_leaf(next);
                            }
                            Some(self.level_maps[self.nr_levels].get(&next).unwrap())
                        },
                    }
                } else {
                    Some(leaf)
                }
            },
        }
    }

    /// The leaf of the greatest stored key that is at most `key`.
    pub fn find_predecessor(&self, key: usize) -> (r: Option<&TrieNode<T>>)
        requires
            self.wf(),
        ensures
            greatest_upto(self@.dom(), key as int, key_of(r)),
            r matches Some(n) ==> self.is_leaf(*n),
    {
        proof {
            self.lemma_view();
            self.lemma_node(0, 0);
            self.lemma_node_ok(0, 0);
            self.lemma_root_sub();
            reveal(node_ok);
            let w = self.nr_levels as nat;
            let s = self.keys();
            if present(s, w, 1, 1) {
                let k = choose|k: usize| #[trigger] s.contains(k) && prefix(k as int, w, 1) == 1;
                assert(below(s, w, 0, 0).contains(k));
            }
            if self.lm(0)[0].right is Some && !present(s, w, 1, 1) {
                assert(below(s, w, 0, 0).contains(self.lm(0)[0].right->0));
            }
        }
        if key > self.range {
            // every stored key lies under `key`: the answer is the greatest of them
            let root = self.level_maps[0].get(&0).unwrap();
            if root.right.is_none() {
                return None;
            }
            let last = self.get_rightmost_node(0, 0);
            proof {
                self.lemma_leaf(last);
            }
            return Some(self.level_maps[self.nr_levels].get(&last).unwrap());
        }
        let node = self.find_lowest_common_ancestor(key);
        proof {
            lemma_prefix_full(key as int, self.nr_levels as nat);
        }
        if node.level == self.nr_levels {
            proof {
                self.lemma_leaf(key);
            }
            return Some(node);
        }
        let child = prefix_of(key, self.nr_levels, node.level + 1);
        let shortcut = if child % 2 == 1 {
            node.right
        } else {
            node.left
        };
        proof {
            self.lemma_shortcut(key, node.level as nat);
        }
        match shortcut {
            None => None,
            Some(c) => {
                proof {
                    self.lemma_leaf(c);
                }
                let leaf = self.level_maps[self.nr_levels].get(&c).unwrap();
                if leaf.key > key {
                    // the shortcut reached the first key after `key`: step once to the left
                    match leaf.left {
                        None => None,
                        Some(prev) => {
                            proof {
                                self.lemma_leaf(prev);
                            }
                            Some(self.level_maps[self.nr_levels].get(&prev).unwrap())
                        },
                    }
                } else {
                    Some(leaf)
                }
            },
        }
    }

    /// Sets the right pointer of the leaf `at`.
    fn set_right_of(map: &mut HashMap<usize, TrieNode<T>>, at: usize, r: Option<usize>)
        requires
            old(map)@.contains_key(at),
        ensures
            final(map)@ == relink_right(old(map)@, Some(at), r),
    {
        let mut node = map.remove(&at).unwrap();
        node.right = r;
        map.insert(at, node);
        proof {
            assert(map@ =~= relink_right(old(map)@, Some(at), r));
        }
    }

    /// Sets the left pointer of the leaf `at`.
    fn set_left_of(map: &mut HashMap<usize, TrieNode<T>>, at: usize, r: Option<usize>)
        requires
            old(map)@.contains_key(at),
        ensures
            final(map)@ == relink_left(old(map)@, Some(at), r),
    {
        let mut node = map.remove(&at).unwrap();
        node.left = r;
        map.insert(at, node);
        proof {
            assert(map@ =~= relink_left(old(map)@, Some(at), r));
        }
    }

    /// The node on the path of a newly stored `key`, whose path continues to
    /// `child`: it takes `child` as its real child on that side, and a
    /// shortcut on the other side is refreshed to take in `key`.
    fn update_descendant_ptr(node: TrieNode<T>, key: usize, child: usize) -> (r: TrieNode<T>)
        ensures
            r == grown(node, key, child),
    {
        let mut node = node;
        if child % 2 == 1 {
            node.right = Some(child);
            node.is_desc_right = false;
            if node.is_desc_left {
                node.left = match node.left {
                    Some(m) => if m < key {
                        Some(m)
                    } else {
                        Some(key)
                    },
                    None => Some(key),
                };
            }
        } else {
            node.left = Some(child);
            node.is_desc_left = false;
            if node.is_desc_right {
                node.right = match node.right {
                    Some(m) => if m > key {
                        Some(m)
                    } else {
                        Some(key)
                    },
                    None => Some(key),
                };
            }
        }
        node
    }

    /// Brings every internal level in line with a newly stored `key`, whose
    /// leaf is already linked: creates the missing nodes on its path, links
    /// each to its child on the path and refreshes the shortcuts.
    fn populate_internal_nodes(&mut self, key: usize)
        requires
            1 <= old(self).nr_levels <= 64,
            old(self).level_maps@.len() == old(self).nr_levels + 1,
            (old(self).range as nat) < pow2(old(self).nr_levels as nat),
            pow2(old(self).nr_levels as nat) <= usize::MAX as nat + 1,
            key <= old(self).range,
            old(self).keys().contains(key),
            forall|k: usize| #[trigger] old(self).keys().contains(k) ==> k <= old(self).range,
            level_ok(
                old(self).keys(),
                old(self).nr_levels as nat,
                old(self).nr_levels as nat,
                old(self).lm(old(self).nr_levels as int),
            ),
            forall|l: int|
                0 <= l < old(self).nr_levels ==> level_ok(
                    old(self).keys().remove(key),
                    old(self).nr_levels as nat,
                    l as nat,
                    #[trigger] old(self).level_maps@[l]@,
                ),
        ensures
            final(self).wf(),
            final(self).nr_levels == old(self).nr_levels,
            final(self).range == old(self).range,
            final(self).lm(final(self).nr_levels as int) == old(self).lm(old(self).nr_levels as int),
    {
        let ghost s = old(self).keys().remove(key);
        let ghost w = self.nr_levels as nat;
        proof {
            assert(s.insert(key) =~= old(self).keys());
            lemma_prefix_root(key as int, w);
            assert forall|j: int| 0 <= j < w implies level_ok(s, w, j as nat, #[trigger] self.level_maps@[j]@) by {
                assert(level_ok(old(self).keys().remove(key), w, j as nat, old(self).level_maps@[j]@));
            }
        }
        let mut level: usize = 0;
        while level < self.nr_levels
            invariant
                self.nr_levels == old(self).nr_levels,
                self.range == old(self).range,
                w == self.nr_levels,
                1 <= w <= 64,
                self.level_maps@.len() == w + 1,
                level <= w,
                !s.contains(key),
                s.insert(key) == old(self).keys(),
                prefix(key as int, w, 0) == 0,
                self.lm(w as int) == old(self).lm(w as int),
                forall|j: int| 0 <= j < level ==> level_ok(s.insert(key), w, j as nat, #[trigger] self.level_maps@[j]@),
                forall|j: int| level <= j < w ==> level_ok(s, w, j as nat, #[trigger] self.level_maps@[j]@),
            decreases w - level,
        {
            let p = prefix_of(key, self.nr_levels, level);
            let child = prefix_of(key, self.nr_levels, level + 1);
            let ghost m = self.lm(level as int);
            let node = match self.level_maps[level].remove(&p) {
                Some(n) => n,
                None => TrieNode::new_internal(level),
            };
            let node = Self::update_descendant_ptr(node, key, child);
            self.level_maps[level].insert(p, node);
            proof {
                lemma_insert_level(s, w, level as nat, key, m);
                assert(self.lm(level as int) =~= m.insert(p, node));
            }
            level += 1;
        }
        proof {
            assert(self.keys() == old(self).keys());
        }
    }

    /// Stores `value` under `key`, replacing the value of a key already stored.
    pub fn insert_key(&mut self, key: usize, value: T)
        requires
            old(self).wf(),
            key <= old(self).spec_range(),
        ensures
            final(self).wf(),
            final(self)@ == old(self)@.insert(key, value),
            final(self).spec_range() == old(self).spec_range(),
            final(self).width() == old(self).width(),
    {
        let w = self.nr_levels;
        let ghost s = self.keys();
        let ghost m = self.lm(w as int);
        proof {
            self.lemma_view();
            assert(level_ok(s, w as nat, w as nat, self.level_maps@[w as int]@));
        }
        if self.level_maps[w].contains_key(&key) {
            let mut leaf = self.level_maps[w].remove(&key).unwrap();
            leaf.value = Some(value);
            self.level_maps[w].insert(key, leaf);
            proof {
                lemma_replace_value(s, w as nat, m, key, value);
                assert(self.lm(w as int) =~= m.insert(key, TrieNode { value: Some(value), ..m[key] }));
                assert(self.keys() =~= s);
                assert forall|l: int| 0 <= l <= self.nr_levels implies level_ok(
                    self.keys(),
                    self.nr_levels as nat,
                    l as nat,
                    #[trigger] self.level_maps@[l]@,
                ) by {
                    if l < w {
                        assert(self.level_maps@[l] == old(self).level_maps@[l]);
                    }
                }
                self.lemma_view();
                old(self).lemma_view();
                assert(self@ =~= old(self)@.insert(key, value));
            }
            return;
        }
        let predecessor = match self.find_predecessor(key) {
            Some(node) => Some(node.key),
            None => None,
        };
        let successor = match self.find_successor(key) {
            Some(node) => Some(node.key),
            None => None,
        };
        let mut new_node = TrieNode::new(key, value, w);
        new_node.left = predecessor;
        new_node.right = successor;
        if let Some(p) = predecessor {
            Self::set_right_of(&mut self.level_maps[w], p, Some(key));
        }
        if let Some(n) = successor {
            Self::set_left_of(&mut self.level_maps[w], n, Some(key));
        }
        self.level_maps[w].insert(key, new_node);
        proof {
            lemma_insert_leaves(s, w as nat, key, m, predecessor, successor, new_node);
            assert(self.lm(w as int) =~= relink_left(relink_right(m, predecessor, Some(key)), successor, Some(key)).insert(key, new_node));
            assert(self.keys() =~= s.insert(key));
            assert(s.insert(key).remove(key) =~= s);
            assert forall|l: int| 0 <= l < self.nr_levels implies level_ok(
                self.keys().remove(key),
                self.nr_levels as nat,
                l as nat,
                #[trigger] self.level_maps@[l]@,
            ) by {
                assert(self.level_maps@[l] == old(self).level_maps@[l]);
            }
        }
        self.populate_internal_nodes(key);
        proof {
            self.lemma_view();
            assert forall|k: usize| #[trigger] self@.contains_key(k) && k != key implies self@[k] == old(self)@[k] by {
                assert(s.contains(k));
            }
            assert(self@ =~= old(self)@.insert(key, value));
        }
    }

    /// `o` is a key whose prefix at level `l` is `p`.
    fn shares_prefix(o: Option<usize>, w: usize, l: usize, p: usize) -> (r: bool)
        requires
            l <= w <= 64,
        ensures
            r == (within(o, w as nat, l as nat, p as int) is Some),
    {
        match o {
            Some(a) => prefix_of(a, w, l) == p,
            None => false,
        }
    }

    /// The node on the path of a removed `key`, whose path continued to
    /// `child`: where nothing stays below `child` (`keep_child` fails) that
    /// side becomes a shortcut to `pb`, the neighbour under `key` still below
    /// the node; a shortcut to `key` on the other side moves on to `sb`, the
    /// neighbour over `key` still below it (and the same with sides swapped).
    fn prune_descendant_ptr(node: TrieNode<T>, key: usize, child: usize, keep_child: bool, pb: Option<usize>, sb: Option<usize>) -> (r: TrieNode<T>)
        ensures
            r == shrunk(node, key, child, keep_child, pb, sb),
    {
        let mut node = node;
        if child % 2 == 1 {
            if !keep_child {
                node.right = pb;
                node.is_desc_right = true;
            }
            if node.is_desc_left && node.left == Some(key) {
                node.left = sb;
            }
        } else {
            if !keep_child {
                node.left = sb;
                node.is_desc_left = true;
            }
            if node.is_desc_right && node.right == Some(key) {
                node.right = pb;
            }
        }
        node
    }

    /// Brings every internal level in line with the removal of `key`, whose
    /// leaf is already unlinked, walking up from the leaves: a node with
    /// nothing left below it goes, and the others are shrunk.
    fn delete_internal_node(&mut self, key: usize, predecessor: Option<usize>, successor: Option<usize>)
        requires
            1 <= old(self).nr_levels <= 64,
            old(self).level_maps@.len() == old(self).nr_levels + 1,
            (old(self).range as nat) < pow2(old(self).nr_levels as nat),
            pow2(old(self).nr_levels as nat) <= usize::MAX as nat + 1,
            key <= old(self).range,
            !old(self).keys().contains(key),
            forall|k: usize| #[trigger] old(self).keys().contains(k) ==> k <= old(self).range,
            greatest_upto(old(self).keys().insert(key), key - 1, predecessor),
            least_from(old(self).keys().insert(key), key + 1, successor),
            level_ok(
                old(self).keys(),
                old(self).nr_levels as nat,
                old(self).nr_levels as nat,
                old(self).lm(old(self).nr_levels as int),
            ),
            forall|l: int|
                0 <= l < old(self).nr_levels ==> level_ok(
                    old(self).keys().insert(key),
                    old(self).nr_levels as nat,
                    l as nat,
                    #[trigger] old(self).level_maps@[l]@,
                ),
        ensures
            final(self).wf(),
            final(self).nr_levels == old(self).nr_levels,
            final(self).range == old(self).range,
            final(self).lm(final(self).nr_levels as int) == old(self).lm(old(self).nr_levels as int),
    {
        let ghost s = old(self).keys().insert(key);
        let ghost w = self.nr_levels as nat;
        let nr_levels = self.nr_levels;
        proof {
            assert(s.remove(key) =~= old(self).keys());
            lemma_prefix_root(key as int, w);
        }
        let mut level: usize = nr_levels;
        while level > 0
            invariant
                self.nr_levels == old(self).nr_levels,
                self.range == old(self).range,
                w == self.nr_levels,
                nr_levels == self.nr_levels,
                1 <= w <= 64,
                self.level_maps@.len() == w + 1,
                level <= w,
                s.contains(key),
                s.remove(key) == old(self).keys(),
                greatest_upto(s, key - 1, predecessor),
                least_from(s, key + 1, successor),
                prefix(key as int, w, 0) == 0,
                self.lm(w as int) == old(self).lm(w as int),
                forall|j: int| level <= j < w ==> level_ok(s.remove(key), w, j as nat, #[trigger] self.level_maps@[j]@),
                forall|j: int| 0 <= j < level ==> level_ok(s, w, j as nat, #[trigger] self.level_maps@[j]@),
            decreases level,
        {
            level = level - 1;
            let p = prefix_of(key, nr_levels, level);
            let child = prefix_of(key, nr_levels, level + 1);
            let ghost m = self.lm(level as int);
            proof {
                lemma_delete_level(s, w, level as nat, key, m, predecessor, successor);
            }
            let node = self.level_maps[level].remove(&p).unwrap();
            let pred_below = Self::shares_prefix(predecessor, nr_levels, level, p);
            let succ_below = Self::shares_prefix(successor, nr_levels, level, p);
            if level == 0 || pred_below || succ_below {
                let keep_child = Self::shares_prefix(predecessor, nr_levels, level + 1, child)
                    || Self::shares_prefix(successor, nr_levels, level + 1, child);
                let pb = if pred_below {
                    predecessor
                } else {
                    None
                };
                let sb = if succ_below {
                    successor
                } else {
                    None
                };
                let node = Self::prune_descendant_ptr(node, key, child, keep_child, pb, sb);
                self.level_maps[level].insert(p, node);
                proof {
                    assert(self.lm(level as int) =~= m.insert(p, node));
                }
            } else {
                proof {
                    assert(self.lm(level as int) =~= m.remove(p));
                }
            }
        }
        proof {
            assert(self.keys() == old(self).keys());
        }
    }

    /// Removes `key`, handing back its value if it was stored.
    pub fn delete_key(&mut self, key: usize) -> (r: Option<T>)
        requires
            old(self).wf(),
        ensures
            final(self).wf(),
            final(self)@ == old(self)@.remove(key),
            r == (if old(self)@.contains_key(key) {
                Some(old(self)@[key])
            } else {
                None::<T>
            }),
            final(self).spec_range() == old(self).spec_range(),
            final(self).width() == old(self).width(),
    {
        let w = self.nr_levels;
        let ghost s = self.keys();
        let ghost m = self.lm(w as int);
        proof {
            self.lemma_view();
            assert(level_ok(s, w as nat, w as nat, self.level_maps@[w as int]@));
        }
        if !self.level_maps[w].contains_key(&key) {
            return None;
        }
        proof {
            lemma_delete_leaves(s, w as nat, key, m);
        }
        let deleted_node = self.level_maps[w].remove(&key).unwrap();
        let predecessor = deleted_node.left;
        let successor = deleted_node.right;
        if let Some(p) = predecessor {
            Self::set_right_of(&mut self.level_maps[w], p, successor);
        }
        if let Some(n) = successor {
            Self::set_left_of(&mut self.level_maps[w], n, predecessor);
        }
        proof {
            assert(self.lm(w as int) =~= relink_left(relink_right(m.remove(key), predecessor, successor), successor, predecessor));
            assert(self.keys() =~= s.remove(key));
            assert(s.remove(key).insert(key) =~= s);
            assert forall|l: int| 0 <= l < self.nr_levels implies level_ok(
                self.keys().insert(key),
                self.nr_levels as nat,
                l as nat,
                #[trigger] self.level_maps@[l]@,
            ) by {
                assert(self.level_maps@[l] == old(self).level_maps@[l]);
            }
        }
        self.delete_internal_node(key, predecessor, successor);
        proof {
            self.lemma_view();
            assert forall|k: usize| #[trigger] self@.contains_key(k) implies self@[k] == old(self)@[k] by {
                assert(s.contains(k));
            }
            assert(self@ =~= old(self)@.remove(key));
            old(self).lemma_view();
        }
        deleted_node.value
    }

    /// The keys below a real child are below its parent, and those below the
    /// other child all lie on one side of them.
    proof fn lemma_child_split(&self, l: nat, p: usize, c: usize)
        requires
            self.wf(),
            l < self.nr_levels,
            c == 2 * p || c == 2 * p + 1,
        ensures
            forall|k: usize| #[trigger]
                below(self.keys(), self.nr_levels as nat, l + 1, c as int).contains(k) ==> below(
                    self.keys(),
                    self.nr_levels as nat,
                    l,
                    p as int,
                ).contains(k),
            forall|i: usize, j: usize|
                #[trigger] below(self.keys(), self.nr_levels as nat, l, p as int).contains(i) && !below(
                    self.keys(),
                    self.nr_levels as nat,
                    l + 1,
                    c as int,
                ).contains(i) && #[trigger] below(self.keys(), self.nr_levels as nat, l + 1, c as int).contains(j)
                    ==> (c == 2 * p ==> j < i) && (c == 2 * p + 1 ==> i < j),
    {
        let w = self.nr_levels as nat;
        let s = self.keys();
        assert forall|k: usize| #[trigger] below(s, w, l + 1, c as int).contains(k) implies below(s, w, l, p as int).contains(k) by {
            lemma_prefix_parent(k as int, w, l);
        }
        assert forall|i: usize, j: usize|
            #[trigger] below(s, w, l, p as int).contains(i) && !below(s, w, l + 1, c as int).contains(i) && #[trigger] below(s, w, l + 1, c as int).contains(j)
            implies (c == 2 * p ==> j < i) && (c == 2 * p + 1 ==> i < j) by {
            lemma_prefix_parent(i as int, w, l);
            lemma_prefix_parent(j as int, w, l);
            if c == 2 * p && i <= j {
                lemma_prefix_monotone(i as int, j as int, w, l + 1);
            }
            if c == 2 * p + 1 && j <= i {
                lemma_prefix_monotone(j as int, i as int, w, l + 1);
            }
        }
    }

    /// The least key below the node with the prefix `prefix` at `level`,
    /// found by following left pointers down to a leaf.
    fn get_leftmost_node(&self, level: usize, start: usize) -> (r: usize)
        requires
            self.wf(),
            level <= self.nr_levels,
            present(self.keys(), self.nr_levels as nat, level as nat, start as int),
        ensures
            least_from(below(self.keys(), self.nr_levels as nat, level as nat, start as int), 0, Some(r)),
    {
        let ghost w = self.nr_levels as nat;
        let ghost s = self.keys();
        let ghost top = below(s, w, level as nat, start as int);
        let mut l = level;
        let mut p = start;
        proof {
            let k = choose|k: usize| #[trigger] s.contains(k) && prefix(k as int, w, level as nat) == start;
            assert(top.contains(k));
        }
        while l < self.nr_levels
            invariant
                self.wf(),
                w == self.nr_levels,
                s == self.keys(),
                top == below(s, w, level as nat, start as int),
                level <= l <= w,
                exists|k: usize| #[trigger] below(s, w, l as nat, p as int).contains(k),
                forall|k: usize| #[trigger] below(s, w, l as nat, p as int).contains(k) ==> top.contains(k),
                forall|i: usize, j: usize|
                    #[trigger] top.contains(i) && !below(s, w, l as nat, p as int).contains(i) && #[trigger] below(s, w, l as nat, p as int).contains(j)
                        ==> j < i,
            decreases w - l,
        {
            proof {
                let k = choose|k: usize| #[trigger] below(s, w, l as nat, p as int).contains(k);
                assert(present(s, w, l as nat, p as int));
                if l == 0 {
                    lemma_prefix_root(k as int, w);
                }
                self.lemma_node(l as int, p);
                self.lemma_node_ok(l as int, p);
                reveal(node_ok);
            }
            let node = self.level_maps[l].get(&p).unwrap();
            if node.is_desc_left {
                // a shortcut to the least leaf below
                return node.left.unwrap();
            }
            proof {
                self.lemma_node_ok(l as int, p);
                reveal(node_ok);
                let k = choose|k: usize| #[trigger] s.contains(k) && prefix(k as int, w, l as nat + 1) == 2 * p;
                lemma_prefix_nonneg(k as int, w, l as nat + 1);
                let c = (2 * p) as usize;
                self.lemma_child_split(l as nat, p, c);
                assert(below(s, w, l as nat + 1, c as int).contains(k));
            }
            p = node.left.unwrap();
            l = l + 1;
        }
        proof {
            assert forall|k: usize| #[trigger] below(s, w, l as nat, p as int).contains(k) implies k == p by {
                lemma_prefix_full(k as int, w);
            }
        }
        p
    }

    /// The greatest key below the node with the prefix `start` at `level`,
    /// found by following right pointers down to a leaf.
    fn get_rightmost_node(&self, level: usize, start: usize) -> (r: usize)
        requires
            self.wf(),
            level <= self.nr_levels,
            present(self.keys(), self.nr_levels as nat, level as nat, start as int),
        ensures
            greatest_upto(below(self.keys(), self.nr_levels as nat, level as nat, start as int), usize::MAX as int, Some(r)),
    {
        let ghost w = self.nr_levels as nat;
        let ghost s = self.keys();
        let ghost top = below(s, w, level as nat, start as int);
        let mut l = level;
        let mut p = start;
        proof {
            let k = choose|k: usize| #[trigger] s.contains(k) && prefix(k as int, w, level as nat) == start;
            assert(top.contains(k));
        }
        while l < self.nr_levels
            invariant
                self.wf(),
                w == self.nr_levels,
                s == self.keys(),
                top == below(s, w, level as nat, start as int),
                level <= l <= w,
                exists|k: usize| #[trigger] below(s, w, l as nat, p as int).contains(k),
                forall|k: usize| #[trigger] below(s, w, l as nat, p as int).contains(k) ==> top.contains(k),
                forall|i: usize, j: usize|
                    #[trigger] top.contains(i) && !below(s, w, l as nat, p as int).contains(i) && #[trigger] below(s, w, l as nat, p as int).contains(j)
                        ==> i < j,
            decreases w - l,
        {
            proof {
                let k = choose|k: usize| #[trigger] below(s, w, l as nat, p as int).contains(k);
                assert(present(s, w, l as nat, p as int));
                if l == 0 {
                    lemma_prefix_root(k as int, w);
                }
                self.lemma_node(l as int, p);
                self.lemma_node_ok(l as int, p);
                reveal(node_ok);
            }
            let node = self.level_maps[l].get(&p).unwrap();
            if node.is_desc_right {
                // a shortcut to the greatest leaf below
                return node.right.unwrap();
            }
            proof {
                self.lemma_node_ok(l as int, p);
                reveal(node_ok);
                let k = choose|k: usize| #[trigger] s.contains(k) && prefix(k as int, w, l as nat + 1) == 2 * p + 1;
                lemma_prefix_nonneg(k as int, w, l as nat + 1);
                let c = (2 * p + 1) as usize;
                self.lemma_child_split(l as nat, p, c);
                assert(below(s, w, l as nat + 1, c as int).contains(k));
            }
            p = node.right.unwrap();
            l = l + 1;
        }
        proof {
            assert forall|k: usize| #[trigger] below(s, w, l as nat, p as int).contains(k) implies k == p by {
                lemma_prefix_full(k as int, w);
            }
        }
        p
    }

    /// The stored keys in increasing order, each with its leaf, found by
    /// walking the leaf list from the least leaf.
    pub fn iter(&self) -> (r: XfastIter<'_, T>)
        requires
            self.wf(),
        ensures
            r.wf(),
            r.trie() == *self,
            forall|i: int, j: int|
                0 <= i < j < r.remaining().len() ==> r.remaining()[i] < r.remaining()[j],
            forall|k: usize| self@.contains_key(k) <==> r.remaining().contains(k),
    {
        let ghost s = self.keys();
        let ghost w = self.nr_levels as nat;
        proof {
            self.lemma_view();
            self.lemma_node(0, 0);
            self.lemma_node_ok(0, 0);
            self.lemma_root_sub();
            reveal(node_ok);
            if present(s, w, 1, 0) {
                let k = choose|k: usize| #[trigger] s.contains(k) && prefix(k as int, w, 1) == 0;
                assert(below(s, w, 0, 0).contains(k));
            }
        }
        let root = self.level_maps[0].get(&0).unwrap();
        let mut next = if root.left.is_some() {
            Some(self.get_leftmost_node(0, 0))
        } else {
            None
        };
        let mut keys: Vec<usize> = Vec::new();
        loop
            invariant
                self.wf(),
                s == self.keys(),
                self@.dom() == s,
                w == self.nr_levels,
                forall|i: int, j: int| 0 <= i < j < keys@.len() ==> keys@[i] < keys@[j],
                forall|i: int| 0 <= i < keys@.len() ==> s.contains(#[trigger] keys@[i]),
                next matches Some(c) ==> s.contains(c),
                next matches Some(c) ==> forall|i: int| 0 <= i < keys@.len() ==> #[trigger] keys@[i] < c,
                next matches Some(c) ==> forall|k: usize| #[trigger] s.contains(k) && k < c ==> keys@.contains(k),
                next is None ==> forall|k: usize| #[trigger] s.contains(k) ==> keys@.contains(k),
            ensures
                forall|i: int, j: int| 0 <= i < j < keys@.len() ==> keys@[i] < keys@[j],
                forall|i: int| 0 <= i < keys@.len() ==> s.contains(#[trigger] keys@[i]),
                forall|k: usize| #[trigger] s.contains(k) ==> keys@.contains(k),
            decreases
                if next is Some {
                    usize::MAX + 1 - next->0
                } else {
                    0
                },
        {
            match next {
                None => break,
                Some(cur) => {
                    proof {
                        self.lemma_leaf(cur);
                    }
                    let leaf = self.level_maps[self.nr_levels].get(&cur).unwrap();
                    let ghost before = keys@;
                    keys.push(cur);
                    proof {
                        assert(keys@ == before.push(cur));
                        assert(keys@[before.len() as int] == cur);
                        assert forall|k: usize| #[trigger] s.contains(k) && k <= cur implies keys@.contains(k) by {
                            if k < cur {
                                assert(before.contains(k));
                                let i = choose|i: int| 0 <= i < before.len() && before[i] == k;
                                assert(keys@[i] == k);
                            } else {
                                assert(keys@[before.len() as int] == k);
                            }
                        }
                        assert(leaf.key == cur);
                        assert(least_from(s, cur + 1, leaf.right));
                    }
                    next = leaf.right;
                },
            }
        }
        let r = XfastIter { trie: self, keys, index: 0 };
        proof {
            assert(r.remaining() =~= keys@);
            assert forall|k: usize| r.remaining().contains(k) implies self@.contains_key(k) by {
                let i = choose|i: int| 0 <= i < keys@.len() && keys@[i] == k;
                assert(s.contains(keys@[i]));
            }
        }
        r
    }

    /// Each level index holds exactly the prefixes at its level of the
    /// stored keys; the root is always indexed, at level 0 under prefix 0.
    /// (An empty trie still has its root, so level 0 is left out there.)
    pub proof fn lemma_level_index_exact(&self, l: nat, p: usize)
        requires
            self.wf(),
            1 <= l <= self.width() || (l == 0 && exists|k: usize| self@.contains_key(k)),
        ensures
            self.indexed(0, 0),
            self.indexed(l, p) <==> exists|k: usize|
                #[trigger] self@.contains_key(k) && prefix(k as int, self.width(), l) == p,
    {
        self.lemma_view();
        self.lemma_node(0, 0);
        self.lemma_node(l as int, p);
        let w = self.width();
        let s = self.keys();
        if l == 0 {
            let k = choose|k: usize| self@.contains_key(k);
            lemma_prefix_root(k as int, self.width());
            if self.indexed(l, p) {
                assert(self@.contains_key(k) && prefix(k as int, self.width(), l) == p);
            }
            if exists|k: usize| #[trigger] self@.contains_key(k) && prefix(k as int, w, l) == p {
                let k2 = choose|k: usize| #[trigger] self@.contains_key(k) && prefix(k as int, w, l) == p;
                lemma_prefix_root(k2 as int, self.width());
            }
        } else {
            if self.indexed(l, p) {
                let k = choose|k: usize| #[trigger] s.contains(k) && prefix(k as int, w, l) == p;
                assert(self@.contains_key(k));
            }
            if exists|k: usize| #[trigger] self@.contains_key(k) && prefix(k as int, w, l) == p {
                let k = choose|k: usize| #[trigger] self@.contains_key(k) && prefix(k as int, w, l) == p;
                assert(s.contains(k));
                assert(present(s, w, l, p as int));
            }
        }
    }

    /// Each internal node has a real child on a side exactly when a stored
    /// key runs that way, with the prefix that the path spells; on a side
    /// without one it holds a shortcut to the least (left) or greatest
    /// (right) stored key below it.
    pub proof fn lemma_descendant_ptr(&self, l: nat, p: usize)
        requires
            self.wf(),
            l < self.width(),
            self.indexed(l, p),
        ensures
            ({
                let n = self.node(l, p);
                let s = self@.dom();
                let w = self.width();
                &&& n.is_desc_left <==> !self.indexed(l + 1, (2 * p) as usize)
                &&& n.is_desc_right <==> !self.indexed(l + 1, (2 * p + 1) as usize)
                &&& n.is_desc_left ==> least_from(below(s, w, l, p as int), 0, n.left)
                &&& n.is_desc_right ==> greatest_upto(below(s, w, l, p as int), usize::MAX as int, n.right)
                &&& !n.is_desc_left ==> n.left == Some((2 * p) as usize)
                &&& !n.is_desc_right ==> n.right == Some((2 * p + 1) as usize)
            }),
    {
        self.lemma_view();
        self.lemma_node_ok(l as int, p);
        let w = self.width();
        let s = self.keys();
        reveal(node_ok);
        self.lemma_node(l as int, p);
        if l > 0 {
            let k = choose|k: usize| #[trigger] s.contains(k) && prefix(k as int, w, l) == p;
            lemma_prefix_bound(k as int, w, l);
        }
        lemma_pow2_unfold(l + 1);
        lemma2_to64();
        lemma2_to64_rest();
        if l + 1 < w {
            lemma_pow2_strictly_increases(l + 1, w);
        }
        assert(2 * p + 1 < pow2(l + 1));
        self.lemma_node(l as int + 1, (2 * p) as usize);
        self.lemma_node(l as int + 1, (2 * p + 1) as usize);
    }

    /// Each leaf links to the next smaller and the next greater stored key,
    /// so that walking right from the least leaf meets every stored key in
    /// increasing order, and walking left from the greatest in decreasing order.
    pub proof fn lemma_leaf_list(&self, k: usize)
        requires
            self.wf(),
            self@.contains_key(k),
        ensures
            self.indexed(self.width(), k),
            self.is_leaf(self.node(self.width(), k)),
            self.node(self.width(), k).key == k,
    {
        self.lemma_view();
        self.lemma_leaf(k);
    }
}

} // verus!

verus! {

/// The stored keys of a trie in increasing order, each with its leaf.
pub struct XfastIter<'a, T> {
    trie: &'a Xfast<T>,
    keys: Vec<usize>,
    index: usize,
}

impl<'a, T> XfastIter<'a, T> {
    /// The trie walked over.
    pub closed spec fn trie(&self) -> Xfast<T> {
        *self.trie
    }

    /// The keys not handed out yet, in order.
    pub closed spec fn remaining(&self) -> Seq<usize> {
        self.keys@.subrange(self.index as int, self.keys@.len() as int)
    }

    pub closed spec fn wf(&self) -> bool {
        &&& self.trie.wf()
        &&& self.index <= self.keys@.len()
        &&& forall|i: int| 0 <= i < self.keys@.len() ==> self.trie@.contains_key(#[trigger] self.keys@[i])
    }

    /// The next key with its leaf.
    pub fn next(&mut self) -> (r: Option<(&'a usize, &'a TrieNode<T>)>)
        requires
            old(self).wf(),
        ensures
            final(self).wf(),
            final(self).trie() == old(self).trie(),
            old(self).remaining().len() == 0 ==> r is None && final(self).remaining() == old(self).remaining(),
            old(self).remaining().len() > 0 ==> {
                &&& r matches Some((k, n)) && *k == old(self).remaining()[0] && n.key == *k && old(self).trie().is_leaf(*n)
                &&& final(self).remaining() == old(self).remaining().drop_first()
            },
    {
        if self.index < self.keys.len() {
            let key = self.keys[self.index];
            self.index += 1;
            let trie: &'a Xfast<T> = self.trie;
            let node = trie.find_key(key).unwrap();
            proof {
                assert(self.remaining() =~= old(self).remaining().drop_first());
            }
            Some((&node.key, node))
        } else {
            None
        }
    }
}

} // verus!
