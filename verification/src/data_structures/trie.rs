//! A prefix tree of words.
//!
//! The nodes live in one vector; node 0 is the root. Each node stands for
//! one sequence of characters, its path: the root for the empty one, and the
//! child of a node under a character for the node's path with that character
//! appended. A word is in the tree where the node of that path is marked
//! with a non-empty word.

use std::collections::HashMap;
use vstd::prelude::*;
use vstd::std_specs::iter::IteratorSpec;

verus! {

/// A node: the word that ends here, empty where none does, and the child
/// under each character, by the character's code.
struct TrieNode {
    word: String,
    children: HashMap<u32, usize>,
}

/// A set of non-empty words, stored by their common prefixes.
pub struct Trie {
    nodes: Vec<TrieNode>,
    paths: Ghost<Seq<Seq<char>>>,
}

/// Two characters of the same code are the same character.
proof fn lemma_same_code(c: char, d: char)
    requires
        c as u32 == d as u32,
    ensures
        c == d,
{
}

impl View for Trie {
    type V = Set<Seq<char>>;

    /// The words in the tree.
    closed spec fn view(&self) -> Set<Seq<char>> {
        Set::new(|w: Seq<char>| exists|i: int| self.marks(i, w))
    }
}

impl Default for Trie {
    /// A tree without words.
    fn default() -> (res: Self)
        ensures
            res.wf(),
            res@ == Set::<Seq<char>>::empty(),
    {
        Trie::new()
    }
}

impl Trie {
    /// Node `i` has the path `w` and is marked.
    spec fn marks(&self, i: int, w: Seq<char>) -> bool {
        &&& 0 <= i < self.nodes@.len()
        &&& self.paths@[i] == w
        &&& self.nodes@[i].word@.len() > 0
    }

    /// Node `j` is the child of node `i` under the last character of its
    /// path.
    spec fn link(&self, i: int, j: int) -> bool {
        &&& 0 <= i < self.nodes@.len()
        &&& 0 <= j < self.nodes@.len()
        &&& self.paths@[j].len() > 0
        &&& self.paths@[j].drop_last() == self.paths@[i]
        &&& self.nodes@[i].children@.contains_key(self.paths@[j].last() as u32)
        &&& self.nodes@[i].children@[self.paths@[j].last() as u32] == j
    }

    /// Node `j` is some node's child.
    spec fn has_parent(&self, j: int) -> bool {
        exists|i: int| self.link(i, j)
    }

    /// The tree is consistent: the root has the empty path, no two nodes have
    /// the same path, each child is reached from its parent under the last
    /// character of its path, each node but the root is some node's child,
    /// and a node's mark is its path.
    pub closed spec fn wf(&self) -> bool {
        &&& self.nodes@.len() >= 1
        &&& self.paths@.len() == self.nodes@.len()
        &&& self.paths@[0] == Seq::<char>::empty()
        &&& forall|i: int, j: int|
            0 <= i < j < self.nodes@.len() ==> #[trigger] self.paths@[i] != #[trigger] self.paths@[j]
        &&& forall|i: int, k: u32|
            0 <= i < self.nodes@.len() && #[trigger] self.nodes@[i].children@.contains_key(k) ==> {
                &&& self.link(i, self.nodes@[i].children@[k] as int)
                &&& self.paths@[self.nodes@[i].children@[k] as int].last() as u32 == k
            }
        &&& forall|j: int| 0 < j < self.nodes@.len() ==> #[trigger] self.has_parent(j)
        &&& forall|i: int|
            0 <= i < self.nodes@.len() && (#[trigger] self.nodes@[i]).word@.len() > 0
                ==> self.nodes@[i].word@ == self.paths@[i]
    }

    /// Below a node whose path is longer than `n` characters, the node of
    /// the first `n` characters has the node of the first `n + 1` as a child.
    proof fn lemma_prefix_linked(&self, i: int, n: int) -> (ab: (int, int))
        requires
            self.wf(),
            0 <= i < self.nodes@.len(),
            0 <= n < self.paths@[i].len(),
        ensures
            self.link(ab.0, ab.1),
            self.paths@[ab.0] == self.paths@[i].subrange(0, n),
            self.paths@[ab.1] == self.paths@[i].subrange(0, n + 1),
        decreases self.paths@[i].len(),
    {
        assert(self.has_parent(i));
        let p = choose|p: int| self.link(p, i);
        if n == self.paths@[i].len() - 1 {
            assert(self.paths@[i].subrange(0, n) == self.paths@[i].drop_last());
            assert(self.paths@[i].subrange(0, n + 1) == self.paths@[i]);
            (p, i)
        } else {
            let ab = self.lemma_prefix_linked(p, n);
            assert(self.paths@[p].subrange(0, n) == self.paths@[i].subrange(0, n));
            assert(self.paths@[p].subrange(0, n + 1) == self.paths@[i].subrange(0, n + 1));
            ab
        }
    }

    /// No node has the path of `cur` with `c` appended unless `cur` has a
    /// child under `c`.
    proof fn lemma_missing_child(&self, cur: int, c: char, i: int)
        requires
            self.wf(),
            0 <= cur < self.nodes@.len(),
            0 <= i < self.nodes@.len(),
            !self.nodes@[cur].children@.contains_key(c as u32),
            self.paths@[cur].len() < self.paths@[i].len(),
            self.paths@[i].subrange(0, self.paths@[cur].len() as int) == self.paths@[cur],
        ensures
            self.paths@[i][self.paths@[cur].len() as int] != c,
    {
        let n = self.paths@[cur].len() as int;
        let (a, b) = self.lemma_prefix_linked(i, n);
        assert(a == cur);
        assert(self.paths@[b].last() == self.paths@[i][n]);
    }

    /// A tree without words.
    pub fn new() -> (res: Self)
        ensures
            res.wf(),
            res@ == Set::<Seq<char>>::empty(),
    {
        let mut nodes: Vec<TrieNode> = Vec::new();
        nodes.push(TrieNode { word: String::new(), children: HashMap::new() });
        let res = Trie { nodes, paths: Ghost(Seq::<Seq<char>>::empty().push(Seq::<char>::empty())) };
        proof {
            broadcast use vstd::std_specs::hash::group_hash_axioms;

            assert(res@ =~= Set::<Seq<char>>::empty());
        }
        res
    }

    /// Puts `word` into the tree. The empty word is never in the tree.
    pub fn insert(&mut self, word: &str)
        requires
            old(self).wf(),
        ensures
            final(self).wf(),
            final(self)@ == if word@.len() > 0 {
                old(self)@.insert(word@)
            } else {
                old(self)@
            },
    {
        broadcast use vstd::std_specs::hash::group_hash_axioms;
        broadcast use vstd::string::next_postcondition;
        broadcast use vstd::string::axiom_spec_iter;
        broadcast use vstd::string::to_string_from_display_ensures_for_str;

        let mut cur: usize = 0;
        let mut it = word.chars();
        loop
            invariant
                self.wf(),
                cur < self.nodes@.len(),
                self.paths@[cur as int] + it.remaining() == word@,
                self@ == old(self)@,
                it.decrease() is Some,
            decreases it.decrease()->0,
        {
            let ghost rest = it.remaining();
            match it.next() {
                None => {
                    let ghost before = *self;
                    self.nodes[cur].word = word.to_string();
                    proof {
                        assert(self.paths@[cur as int] =~= word@);
                        assert forall|a: int, b: int| before.link(a, b) implies self.link(a, b) by {}
                        assert forall|b: int| 0 < b < self.nodes@.len() implies #[trigger] self.has_parent(b) by {
                            assert(before.has_parent(b));
                            let a = choose|a: int| before.link(a, b);
                            assert(self.link(a, b));
                        }
                        let target = if word@.len() > 0 {
                            before@.insert(word@)
                        } else {
                            before@
                        };
                        assert forall|w: Seq<char>| self@.contains(w) == target.contains(w) by {
                            if self@.contains(w) {
                                let i = choose|i: int| self.marks(i, w);
                                if i != cur {
                                    assert(before.marks(i, w));
                                }
                            }
                            if target.contains(w) {
                                if w == word@ && word@.len() > 0 {
                                    assert(self.marks(cur as int, w));
                                } else {
                                    let i = choose|i: int| before.marks(i, w);
                                    assert(self.marks(i, w));
                                }
                            }
                        }
                        assert(self@ =~= target);
                    }
                    return ;
                },
                Some(c) => {
                    let key = c as u32;
                    let found: Option<usize> = match self.nodes[cur].children.get(&key) {
                        Some(j) => Some(*j),
                        None => None,
                    };
                    let ghost prefix = self.paths@[cur as int];
                    match found {
                        Some(j) => {
                            proof {
                                assert(self.link(cur as int, j as int));
                                lemma_same_code(self.paths@[j as int].last(), c);
                                assert(self.paths@[j as int] =~= prefix.push(c));
                                assert(prefix.push(c) + rest.drop_first() =~= prefix + rest);
                            }
                            cur = j;
                        },
                        None => {
                            let ghost before = *self;
                            let j = self.nodes.len();
                            self.nodes.push(TrieNode { word: String::new(), children: HashMap::new() });
                            self.nodes[cur].children.insert(key, j);
                            proof {
                                self.paths@ = self.paths@.push(prefix.push(c));
                                assert(prefix.push(c) + rest.drop_first() =~= prefix + rest);
                                assert(prefix.push(c).drop_last() =~= prefix);
                                assert forall|i: int| 0 <= i < j implies self.paths@[i] != prefix.push(c) by {
                                    if before.paths@[i] == prefix.push(c) {
                                        assert(before.paths@[i].subrange(0, prefix.len() as int) =~= prefix);
                                        before.lemma_missing_child(cur as int, c, i);
                                    }
                                }
                                assert forall|a: int, b: int| before.link(a, b) implies self.link(a, b) by {}
                                assert(self.link(cur as int, j as int));
                                assert forall|b: int| 0 < b < self.nodes@.len() implies #[trigger] self.has_parent(
                                    b,
                                ) by {
                                    if b < j {
                                        assert(before.has_parent(b));
                                        let a = choose|a: int| before.link(a, b);
                                        assert(self.link(a, b));
                                    }
                                }
                                assert forall|w: Seq<char>| self@.contains(w) == before@.contains(w) by {
                                    if self@.contains(w) {
                                        let i = choose|i: int| self.marks(i, w);
                                        assert(before.marks(i, w));
                                    }
                                    if before@.contains(w) {
                                        let i = choose|i: int| before.marks(i, w);
                                        assert(self.marks(i, w));
                                    }
                                }
                                assert(self@ =~= before@);
                            }
                            cur = j;
                        },
                    }
                },
            }
        }
    }

    /// Whether `word` is in the tree.
    pub fn contains(&self, word: &str) -> (res: bool)
        requires
            self.wf(),
        ensures
            res == self@.contains(word@),
    {
        broadcast use vstd::std_specs::hash::group_hash_axioms;
        broadcast use vstd::string::next_postcondition;
        broadcast use vstd::string::axiom_spec_iter;

        let mut cur: usize = 0;
        let mut it = word.chars();
        loop
            invariant
                self.wf(),
                cur < self.nodes@.len(),
                self.paths@[cur as int] + it.remaining() == word@,
                it.decrease() is Some,
            decreases it.decrease()->0,
        {
            let ghost rest = it.remaining();
            match it.next() {
                None => {
                    proof {
                        assert(self.paths@[cur as int] =~= word@);
                        if self@.contains(word@) {
                            let i = choose|i: int| self.marks(i, word@);
                            assert(i == cur);
                        }
                        if self.nodes@[cur as int].word@.len() > 0 {
                            assert(self.marks(cur as int, word@));
                        }
                    }
                    return !self.nodes[cur].word.as_str().is_empty();
                },
                Some(c) => {
                    let key = c as u32;
                    let ghost prefix = self.paths@[cur as int];
                    match self.nodes[cur].children.get(&key) {
                        Some(j) => {
                            proof {
                                assert(self.link(cur as int, *j as int));
                                lemma_same_code(self.paths@[*j as int].last(), c);
                                assert(self.paths@[*j as int] =~= prefix.push(c));
                                assert(prefix.push(c) + rest.drop_first() =~= prefix + rest);
                            }
                            cur = *j;
                        },
                        None => {
                            proof {
                                if self@.contains(word@) {
                                    let i = choose|i: int| self.marks(i, word@);
                                    assert(word@.subrange(0, prefix.len() as int) =~= prefix);
                                    self.lemma_missing_child(cur as int, c, i);
                                }
                            }
                            return false;
                        },
                    }
                },
            }
        }
    }
}

} // verus!
