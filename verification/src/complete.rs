//! A prefix trie over `char` sequences.
//!
//! A [`TrieNode`] owns its children in a vector of labelled edges; looking a
//! label up takes the first edge that carries it. A [`Trie`] owns the root and
//! keeps every label unique among siblings and every branch ending in a stored
//! word, so that its whole meaning is the set of words it stores.
use crate::lemmas::lemma_prefix_split;
use vstd::prelude::*;

verus! {

/// The character sequences held by a list of lines.
pub open spec fn lines(list: Seq<Vec<char>>) -> Seq<Seq<char>> {
    list.map_values(|line: Vec<char>| line@)
}

/// The words of `words` that start with `prefix`.
pub open spec fn matching(words: Set<Seq<char>>, prefix: Seq<char>) -> Set<Seq<char>> {
    words.filter(|w: Seq<char>| prefix.is_prefix_of(w))
}

/// What is left of the words of `words` that start with `prefix` once `prefix` is taken off.
pub open spec fn suffixes(words: Set<Seq<char>>, prefix: Seq<char>) -> Set<Seq<char>> {
    Set::new(|s: Seq<char>| words.contains(prefix + s))
}

/// The sequences that `s` starts with, from the empty one to `s` itself.
pub open spec fn prefixes(s: Seq<char>) -> Set<Seq<char>> {
    Set::new(|p: Seq<char>| p.is_prefix_of(s))
}

/// One node of the trie: the end-of-word mark and the labelled edges to the
/// children, in the order in which they were added.
#[derive(Debug)]
pub struct TrieNode {
    pub is_end: bool,
    pub children: Vec<(char, TrieNode)>,
}

impl View for TrieNode {
    type V = Set<Seq<char>>;

    /// The set of words stored at or below this node, each read from this node on.
    open spec fn view(&self) -> Set<Seq<char>> {
        Set::new(|w: Seq<char>| self.contains(w))
    }
}

impl TrieNode {
    /// `i` is the first edge of this node that is labelled `c`.
    pub open spec fn is_edge(&self, c: char, i: int) -> bool {
        &&& 0 <= i < self.children@.len()
        &&& self.children@[i].0 == c
        &&& forall|j: int| 0 <= j < i ==> (#[trigger] self.children@[j]).0 != c
    }

    /// Some edge of this node is labelled `c`.
    pub open spec fn has_child(&self, c: char) -> bool {
        exists|i: int| self.is_edge(c, i)
    }

    /// The node that the first edge labelled `c` leads to.
    pub open spec fn child(&self, c: char) -> TrieNode
        recommends
            self.has_child(c),
    {
        self.children@[choose|i: int| self.is_edge(c, i)].1
    }

    /// The node reached by following `path` from this node, if the whole path exists.
    pub open spec fn descend(&self, path: Seq<char>) -> Option<TrieNode>
        decreases path.len(),
    {
        if path.len() == 0 {
            Some(*self)
        } else if self.has_child(path[0]) {
            self.child(path[0]).descend(path.drop_first())
        } else {
            None
        }
    }

    /// `path` can be followed from this node without falling off the tree.
    pub open spec fn has_path(&self, path: Seq<char>) -> bool {
        self.descend(path) is Some
    }

    /// The paths that can be followed from this node: one for each node of the subtree.
    pub open spec fn paths(&self) -> Set<Seq<char>> {
        Set::new(|path: Seq<char>| self.has_path(path))
    }

    /// `word` is stored: its path exists and ends in a node marked as an end.
    pub open spec fn contains(&self, word: Seq<char>) -> bool {
        match self.descend(word) {
            Some(node) => node.is_end,
            None => false,
        }
    }

    /// No two edges of one node carry the same label, anywhere in the subtree.
    pub open spec fn well_formed(&self) -> bool
        decreases self,
    {
        &&& forall|i: int, j: int|
            0 <= i < j < self.children@.len() ==> (#[trigger] self.children@[i]).0 != (
            #[trigger] self.children@[j]).0
        &&& forall|i: int|
            0 <= i < self.children@.len() ==> (#[trigger] self.children@[i]).1.well_formed()
    }

    /// Every edge in the subtree leads to at least one stored word.
    pub open spec fn pruned(&self) -> bool
        decreases self,
    {
        forall|i: int|
            0 <= i < self.children@.len() ==> {
                &&& (#[trigger] self.children@[i]).1.pruned()
                &&& exists|w: Seq<char>| self.children@[i].1.contains(w)
            }
    }

    /// Every edge but the one at index `i` leads to a pruned subtree with a stored word.
    pub open spec fn pruned_except(&self, i: int) -> bool {
        forall|a: int|
            0 <= a < self.children@.len() && a != i ==> {
                &&& (#[trigger] self.children@[a]).1.pruned()
                &&& exists|w: Seq<char>| self.children@[a].1.contains(w)
            }
    }

    /// An unmarked node without children.
    pub open spec fn is_fresh(&self) -> bool {
        !self.is_end && self.children@.len() == 0
    }

    /// Every label but `c` leads to the same child, or to none, in both nodes.
    pub open spec fn agrees_except(&self, other: TrieNode, c: char) -> bool {
        forall|d: char|
            d != c ==> {
                &&& #[trigger] self.has_child(d) == other.has_child(d)
                &&& other.has_child(d) ==> self.child(d) == other.child(d)
            }
    }

    /// The two nodes have the same marks and the same labels in the same
    /// order, all the way down.
    pub open spec fn alike(&self, other: TrieNode) -> bool
        decreases self,
    {
        &&& self.is_end == other.is_end
        &&& self.children@.len() == other.children@.len()
        &&& forall|i: int|
            0 <= i < self.children@.len() ==> {
                &&& (#[trigger] self.children@[i]).0 == other.children@[i].0
                &&& self.children@[i].1.alike(other.children@[i].1)
            }
    }

    /// `s` is `prefix` followed by a word stored at or below this node.
    pub open spec fn lists(&self, prefix: Seq<char>, s: Seq<char>) -> bool {
        prefix.is_prefix_of(s) && self.contains(s.skip(prefix.len() as int))
    }

    /// `s` is `prefix` followed by a word that leaves this node by one of its first `k` edges.
    pub open spec fn lists_below(&self, prefix: Seq<char>, k: nat, s: Seq<char>) -> bool {
        &&& self.lists(prefix, s)
        &&& s.len() > prefix.len()
        &&& exists|j: int|
            0 <= j < k && j < self.children@.len() && (#[trigger] self.children@[j]).0
                == s[prefix.len() as int]
    }

    /// The words stored at or below this node, each behind `prefix`, in the order
    /// of a depth-first walk: the node's own word first, then the subtrees in the
    /// order of the edges.
    pub open spec fn listing(&self, prefix: Seq<char>) -> Seq<Seq<char>>
        decreases self, self.children@.len() + 1,
    {
        let own = if self.is_end {
            seq![prefix]
        } else {
            Seq::empty()
        };
        own + self.listing_below(prefix, self.children@.len())
    }

    /// The listing of the node at the end of `prefix`, behind `prefix`; empty
    /// where there is no such node.
    pub open spec fn ordered_from(&self, prefix: Seq<char>) -> Seq<Seq<char>> {
        match self.descend(prefix) {
            Some(node) => node.listing(prefix),
            None => Seq::empty(),
        }
    }

    /// The part of [`Self::listing`] that comes from the first `k` edges.
    pub open spec fn listing_below(&self, prefix: Seq<char>, k: nat) -> Seq<Seq<char>>
        decreases self, k,
    {
        if k == 0 || k > self.children@.len() {
            Seq::empty()
        } else {
            let edge = self.children@[k - 1];
            self.listing_below(prefix, (k - 1) as nat) + edge.1.listing(prefix.push(edge.0))
        }
    }

    /// A node that is not an end and has no children, storing nothing.
    pub fn new() -> (node: Self)
        ensures
            node.is_fresh(),
            node@ == Set::<Seq<char>>::empty(),
            node.paths() == set![Seq::<char>::empty()],
            node.well_formed(),
            node.pruned(),
    {
        let node = TrieNode { is_end: false, children: Vec::new() };
        proof {
            node.lemma_fresh_paths();
            assert forall|w: Seq<char>| !node.contains(w) by {
                node.lemma_fresh_is_empty(w);
            }
            assert(node@ =~= Set::<Seq<char>>::empty());
        }
        node
    }

    /// The index of the first edge labelled `c`, if there is one.
    pub fn position(&self, c: char) -> (found: Option<usize>)
        ensures
            match found {
                Some(i) => self.is_edge(c, i as int),
                None => !self.has_child(c),
            },
    {
        let mut i: usize = 0;
        while i < self.children.len()
            invariant
                i <= self.children@.len(),
                forall|j: int| 0 <= j < i ==> (#[trigger] self.children@[j]).0 != c,
            decreases self.children@.len() - i,
        {
            if self.children[i].0 == c {
                return Some(i);
            }
            i += 1;
        }
        None
    }

    /// Makes sure that an edge labelled `c` exists: where there is none, a
    /// fresh child is added behind the others; where there is one, nothing changes.
    /// No word is added or lost.
    pub fn insert(&mut self, c: char)
        ensures
            final(self).is_end == old(self).is_end,
            final(self).has_child(c),
            final(self).agrees_except(*old(self), c),
            old(self).has_child(c) ==> final(self).children@ == old(self).children@
                && final(self).child(c) == old(self).child(c),
            !old(self).has_child(c) ==> {
                &&& final(self).children@.len() == old(self).children@.len() + 1
                &&& final(self).children@.drop_last() == old(self).children@
                &&& final(self).children@.last().0 == c
                &&& final(self).child(c).is_fresh()
            },
            final(self)@ == old(self)@,
            final(self).paths() == old(self).paths().insert(seq![c]),
            old(self).well_formed() ==> final(self).well_formed(),
            old(self).pruned() ==> final(self).child(c).pruned() && forall|i: int|
                final(self).is_edge(c, i) ==> final(self).pruned_except(i),
    {
        match self.position(c) {
            Some(k) => {
                proof {
                    TrieNode::lemma_same_children(*old(self), *self);
                    self.lemma_child_at(c, k as int);
                    self.lemma_descend_one(c);
                    assert(self.paths() =~= old(self).paths().insert(seq![c]));
                    if old(self).pruned() {
                        assert(self.children@[k as int].1.pruned());
                    }
                }
            },
            None => {
                self.children.push((c, TrieNode::new()));
                proof {
                    assert(self.children@.drop_last() =~= old(self).children@);
                    TrieNode::lemma_push_child(*old(self), *self, c);
                    self.lemma_child_at(c, old(self).children@.len() as int);
                    let fresh = self.child(c);
                    assert forall|w: Seq<char>| self.contains(w) <==> old(self).contains(w) by {
                        if w.len() > 0 && w[0] == c {
                            fresh.lemma_fresh_is_empty(w.drop_first());
                        }
                    }
                    assert forall|i: int| self.is_edge(c, i) implies i == old(
                        self,
                    ).children@.len() by {
                        self.lemma_edge_unique(c, i, old(self).children@.len() as int);
                    }
                    fresh.lemma_fresh_paths();
                    assert forall|p: Seq<char>| self.has_path(p) <==> (old(self).has_path(p) || p
                        == seq![c]) by {
                        if p.len() > 0 && p[0] == c {
                            assert(fresh.paths().contains(p.drop_first()) == self.has_path(p));
                            if p.drop_first() == Seq::<char>::empty() {
                                assert(p =~= seq![c]);
                            }
                        } else if p.len() > 0 {
                            assert(self.has_child(p[0]) == old(self).has_child(p[0]));
                        }
                    }
                    assert(self.paths() =~= old(self).paths().insert(seq![c]));
                }
            },
        }
        assert(self@ =~= old(self)@);
    }

    /// Stores `word` from position `start` on below this node: walks the edges
    /// labelled with its characters, adding the missing ones, and marks the node
    /// at the end. What was stored stays stored.
    pub fn insert_from(&mut self, word: &Vec<char>, start: usize)
        requires
            start <= word@.len(),
        ensures
            final(self)@ == old(self)@.insert(word@.skip(start as int)),
            final(self).paths() == old(self).paths() + prefixes(word@.skip(start as int)),
            old(self).contains(word@.skip(start as int)) ==> final(self).alike(*old(self)),
            old(self).well_formed() ==> final(self).well_formed(),
            old(self).pruned() ==> final(self).pruned(),
        decreases word@.len() - start,
    {
        let ghost rest = word@.skip(start as int);
        if start == word.len() {
            self.is_end = true;
            proof {
                TrieNode::lemma_same_children(*old(self), *self);
                assert forall|w: Seq<char>| self.contains(w) <==> (old(self).contains(w) || w
                    == rest) by {
                    if w.len() == 0 {
                        assert(w =~= rest);
                    } else {
                        assert(self.has_child(w[0]) == old(self).has_child(w[0]));
                    }
                }
                assert(self@ =~= old(self)@.insert(rest));
                assert(prefixes(rest) =~= set![Seq::<char>::empty()]) by {
                    assert(Seq::<char>::empty() =~= rest.subrange(0, 0));
                    assert forall|p: Seq<char>| p.is_prefix_of(rest) implies p
                        == Seq::<char>::empty() by {
                        assert(p =~= Seq::<char>::empty());
                    }
                }
                assert(self.has_path(Seq::<char>::empty()));
                assert(self.paths() =~= old(self).paths() + prefixes(rest));
                if old(self).contains(rest) {
                    old(self).lemma_alike_refl();
                }
            }
        } else {
            let c = word[start];
            self.insert(c);
            let ghost mid = *self;
            let i = self.position(c).unwrap();
            proof {
                mid.lemma_child_at(c, i as int);
                if mid.child(c).is_fresh() {
                    assert(mid.child(c)@ =~= Set::<Seq<char>>::empty()) by {
                        assert forall|w: Seq<char>| !mid.child(c).contains(w) by {
                            mid.child(c).lemma_fresh_is_empty(w);
                        }
                    }
                    mid.child(c).lemma_fresh_paths();
                }
                if old(self).well_formed() {
                    assert(mid.children@[i as int].1.well_formed());
                }
            }
            self.children[i].1.insert_from(word, start + 1);
            proof {
                let grown = self.children@[i as int].1;
                assert(rest[0] == c);
                assert(rest.drop_first() =~= word@.skip(start + 1));
                assert(grown@ == mid.child(c)@.insert(rest.drop_first()));
                assert(grown@.contains(rest.drop_first()));
                TrieNode::lemma_replace_child(mid, *self, c, i as int);
                self.lemma_agrees_trans(mid, *old(self), c);
                TrieNode::lemma_insert_below(*old(self), *self, rest);
                assert(grown.paths() == mid.child(c).paths() + prefixes(rest.drop_first()));
                if !old(self).has_child(c) {
                    assert(prefixes(rest.drop_first()).contains(Seq::<char>::empty())) by {
                        assert(Seq::<char>::empty() =~= rest.drop_first().subrange(0, 0));
                    }
                    assert(grown.paths() =~= prefixes(rest.drop_first()));
                }
                TrieNode::lemma_paths_below(*old(self), *self, rest);
                if old(self).contains(rest) {
                    old(self).lemma_alike_refl();
                    assert(old(self).child(c).contains(rest.drop_first()));
                    assert(self.alike(*old(self)));
                }
            }
        }
    }

    /// Appends to `out` every word stored at or below this node, each behind the
    /// characters of `path`, in the order of [`Self::listing`]. `path` is used as
    /// a stack and comes back as it was.
    pub fn collect(&self, path: &mut Vec<char>, out: &mut Vec<Vec<char>>)
        ensures
            final(path)@ == old(path)@,
            lines(final(out)@) == lines(old(out)@) + self.listing(old(path)@),
        decreases self,
    {
        if self.is_end {
            out.push(path.clone());
            proof {
                assert(lines(out@) =~= lines(old(out)@) + seq![path@]);
            }
        }
        let ghost base = lines(out@);
        let mut i: usize = 0;
        while i < self.children.len()
            invariant
                i <= self.children@.len(),
                path@ == old(path)@,
                lines(out@) == base + self.listing_below(old(path)@, i as nat),
            decreases self.children@.len() - i,
        {
            path.push(self.children[i].0);
            self.children[i].1.collect(path, out);
            path.pop();
            i += 1;
            proof {
                let edge = self.children@[i - 1];
                assert(path@ =~= old(path)@);
                assert(lines(out@) =~= base + (self.listing_below(old(path)@, (i - 1) as nat)
                    + edge.1.listing(old(path)@.push(edge.0))));
            }
        }
        proof {
            assert(lines(out@) =~= lines(old(out)@) + self.listing(old(path)@));
        }
    }
}

impl Clone for TrieNode {
    /// A copy of the whole subtree: the same marks and the same labels in the
    /// same order, and so the same words, paths and listing.
    fn clone(&self) -> (copy: Self)
        ensures
            copy.alike(*self),
            copy@ == self@,
            copy.paths() == self.paths(),
        decreases self,
    {
        let mut children: Vec<(char, TrieNode)> = Vec::new();
        let mut i: usize = 0;
        while i < self.children.len()
            invariant
                i <= self.children@.len(),
                children@.len() == i,
                forall|j: int|
                    0 <= j < i ==> {
                        &&& (#[trigger] children@[j]).0 == self.children@[j].0
                        &&& children@[j].1.alike(self.children@[j].1)
                    },
            decreases self.children@.len() - i,
        {
            let label = self.children[i].0;
            let child = self.children[i].1.clone();
            children.push((label, child));
            i += 1;
        }
        let copy = TrieNode { is_end: self.is_end, children };
        proof {
            copy.lemma_alike_words(*self);
        }
        copy
    }
}

/// A set of words over `char`, kept as a tree that shares common prefixes.
#[derive(Debug)]
pub struct Trie {
    root: TrieNode,
}

impl View for Trie {
    type V = Set<Seq<char>>;

    /// The set of words that were inserted.
    closed spec fn view(&self) -> Set<Seq<char>> {
        self.root@
    }
}

impl Trie {
    #[verifier::type_invariant]
    spec fn inv(&self) -> bool {
        self.root.well_formed() && self.root.pruned()
    }

    /// The empty trie: the root alone.
    pub fn new() -> (trie: Self)
        ensures
            trie@ == Set::<Seq<char>>::empty(),
            trie.paths() == set![Seq::<char>::empty()],
    {
        Trie { root: TrieNode::new() }
    }

    /// The paths of the tree, one for each of its nodes: the empty path, and
    /// every sequence that some stored word starts with.
    pub closed spec fn paths(&self) -> Set<Seq<char>> {
        self.root.paths()
    }

    /// Stores `word`: walks the tree along it, adding the nodes that are
    /// missing, and marks the node at its end. Storing a word again changes
    /// nothing.
    pub fn insert(&mut self, word: &Vec<char>)
        ensures
            final(self)@ == old(self)@.insert(word@),
            final(self).paths() == old(self).paths() + prefixes(word@),
            old(self)@.contains(word@) ==> forall|prefix: Seq<char>| #[trigger]
                final(self).ordered(prefix) == old(self).ordered(prefix),
    {
        proof {
            use_type_invariant(&*self);
            assert(word@.skip(0) =~= word@);
        }
        let mut root = TrieNode::new();
        std::mem::swap(&mut root, &mut self.root);
        root.insert_from(word, 0);
        proof {
            if old(self)@.contains(word@) {
                assert forall|prefix: Seq<char>| #[trigger]
                    root.ordered_from(prefix) == old(self).root.ordered_from(prefix) by {
                    root.lemma_alike_descend(old(self).root, prefix);
                    if root.descend(prefix) is Some {
                        root.descend(prefix).unwrap().lemma_alike_listing(
                            old(self).root.descend(prefix).unwrap(),
                            prefix,
                        );
                    }
                }
            }
        }
        self.root = root;
    }

    /// The node at the end of `path`, if the trie has the whole path.
    pub closed spec fn node_at(&self, path: Seq<char>) -> Option<TrieNode> {
        self.root.descend(path)
    }

    /// The stored words that start with `prefix`, in the order in which
    /// [`Self::match_prefix`] hands them out: depth first, a word before its
    /// extensions, siblings in the order in which their first characters came in.
    pub closed spec fn ordered(&self, prefix: Seq<char>) -> Seq<Seq<char>> {
        self.root.ordered_from(prefix)
    }

    /// Walks the trie along `word` and returns the node at its end. There is
    /// none exactly if `word` is not empty and no stored word starts with it.
    /// The node found stores what is left of those words behind `word`.
    pub fn find(&self, word: &Vec<char>) -> (found: Option<&TrieNode>)
        ensures
            match found {
                Some(node) => self.node_at(word@) == Some(*node),
                None => self.node_at(word@) is None,
            },
            found is Some <==> self.paths().contains(word@),
            found is None <==> word@.len() > 0 && matching(self@, word@) == Set::<
                Seq<char>,
            >::empty(),
            match found {
                Some(node) => node@ == suffixes(self@, word@) && node.well_formed()
                    && node.pruned(),
                None => true,
            },
    {
        proof {
            use_type_invariant(self);
        }
        let mut node = &self.root;
        let mut i: usize = 0;
        while i < word.len()
            invariant
                i <= word@.len(),
                self.root.descend(word@.take(i as int)) == Some(*node),
            decreases word@.len() - i,
        {
            let c = word[i];
            match node.position(c) {
                Some(k) => {
                    proof {
                        node.lemma_child_at(c, k as int);
                        node.lemma_descend_one(c);
                        self.root.lemma_descend_concat(word@.take(i as int), seq![c]);
                        assert(word@.take(i + 1) =~= word@.take(i as int) + seq![c]);
                    }
                    node = &node.children[k].1;
                },
                None => {
                    proof {
                        assert(word@.skip(i as int)[0] == c);
                        assert(node.descend(word@.skip(i as int)) is None);
                        self.root.lemma_descend_concat(word@.take(i as int), word@.skip(i as int));
                        assert(word@ =~= word@.take(i as int) + word@.skip(i as int));
                        self.root.lemma_descend_words(word@);
                    }
                    return None;
                },
            }
            i += 1;
        }
        proof {
            assert(word@.take(i as int) =~= word@);
            self.root.lemma_descend_words(word@);
            self.root.lemma_well_formed_descend(word@);
            self.root.lemma_pruned_descend(word@);
            if word@.len() > 0 {
                let rest = choose|rest: Seq<char>| node.contains(rest);
                lemma_prefix_split(word@, rest);
                assert(suffixes(self@, word@).contains(rest));
                assert(matching(self@, word@).contains(word@ + rest));
            }
        }
        Some(node)
    }

    /// The stored words that start with `prefix`, each once, or `None` where the
    /// trie has no path for `prefix`: that is, where `prefix` is not empty and no
    /// stored word starts with it. The order is that of a depth-first walk.
    pub fn match_prefix(&self, prefix: &Vec<char>) -> (found: Option<Vec<Vec<char>>>)
        ensures
            found is Some <==> self.paths().contains(prefix@),
            found is None <==> prefix@.len() > 0 && matching(self@, prefix@) == Set::<
                Seq<char>,
            >::empty(),
            match found {
                Some(list) => {
                    &&& lines(list@).no_duplicates()
                    &&& lines(list@).to_set() == matching(self@, prefix@)
                    &&& lines(list@) == self.ordered(prefix@)
                },
                None => true,
            },
    {
        match self.find(prefix) {
            None => None,
            Some(node) => {
                let mut path = prefix.clone();
                let mut list: Vec<Vec<char>> = Vec::new();
                node.collect(&mut path, &mut list);
                proof {
                    let listed = node.listing(prefix@);
                    assert(lines(list@) =~= listed);
                    node.lemma_listing(prefix@);
                    assert forall|s: Seq<char>| listed.to_set().contains(s) <==> matching(
                        self@,
                        prefix@,
                    ).contains(s) by {
                        lemma_prefix_split(prefix@, s);
                        if prefix@.is_prefix_of(s) {
                            let rest = s.skip(prefix@.len() as int);
                            assert(node@.contains(rest) == self@.contains(prefix@ + rest));
                        }
                    }
                    assert(listed.to_set() =~= matching(self@, prefix@));
                }
                Some(list)
            },
        }
    }
}

/// Inserting a word that was inserted before changes nothing that a search
/// can see: the stored set is the same, and so are the matches of every prefix.
pub proof fn lemma_insert_idempotent(words: Set<Seq<char>>, word: Seq<char>, prefix: Seq<char>)
    ensures
        words.insert(word).insert(word) == words.insert(word),
        matching(words.insert(word).insert(word), prefix) == matching(words.insert(word), prefix),
{
    assert(words.insert(word).insert(word) =~= words.insert(word));
}

/// A search after an insertion finds what it found before, and the new word
/// where it starts with the prefix.
pub proof fn lemma_matching_insert(words: Set<Seq<char>>, word: Seq<char>, prefix: Seq<char>)
    ensures
        matching(words.insert(word), prefix) == if prefix.is_prefix_of(word) {
            matching(words, prefix).insert(word)
        } else {
            matching(words, prefix)
        },
{
    if prefix.is_prefix_of(word) {
        assert(matching(words.insert(word), prefix) =~= matching(words, prefix).insert(word));
    } else {
        assert(matching(words.insert(word), prefix) =~= matching(words, prefix));
    }
}

} // verus!
